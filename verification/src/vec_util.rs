//! Small verified vector helpers shared across the crate: in-place element
//! exchange, element replacement, and copying.

use vstd::prelude::*;

verus! {

/// Exchanges `v[i]` and `v[j]` without moving anything else.
pub(crate) fn vec_swap<T>(v: &mut Vec<T>, i: usize, j: usize)
    requires
        (i as int) < old(v)@.len(),
        (j as int) < old(v)@.len(),
    ensures
        final(v)@ == old(v)@.update(i as int, old(v)@[j as int]).update(
            j as int,
            old(v)@[i as int],
        ),
        final(v)@.to_multiset() == old(v)@.to_multiset(),
{
    let ghost s = v@;
    if i == j {
        proof {
            assert(s.update(i as int, s[j as int]).update(j as int, s[i as int]) =~= s);
        }
        return ;
    }
    let a = if i < j {
        i
    } else {
        j
    };
    let b = if i < j {
        j
    } else {
        i
    };
    let last = v.len() - 1;
    let mut tmp: T = v.swap_remove(last);
    proof {
        assert(v@ =~= s.drop_last());
    }
    if b == last {
        core::mem::swap(&mut tmp, &mut v[a]);
        proof {
            assert(v@ =~= s.drop_last().update(a as int, s[b as int]));
        }
        v.push(tmp);
    } else {
        core::mem::swap(&mut tmp, &mut v[a]);
        proof {
            assert(v@ =~= s.drop_last().update(a as int, s[last as int]));
        }
        core::mem::swap(&mut tmp, &mut v[b]);
        proof {
            assert(v@ =~= s.drop_last().update(a as int, s[last as int]).update(
                b as int,
                s[a as int],
            ));
        }
        core::mem::swap(&mut tmp, &mut v[a]);
        v.push(tmp);
    }
    proof {
        assert(v@ =~= s.update(i as int, s[j as int]).update(j as int, s[i as int]));
        broadcast use vstd::seq_lib::group_to_multiset_ensures;
        broadcast use vstd::multiset::group_multiset_axioms;

        assert(v@.to_multiset() =~= s.to_multiset());
    }
}

/// Replaces `v[k]`, dropping the old element.
pub(crate) fn vec_replace<T>(v: &mut Vec<T>, k: usize, a: T)
    requires
        (k as int) < old(v)@.len(),
    ensures
        final(v)@ == old(v)@.update(k as int, a),
{
    let mut x = a;
    core::mem::swap(&mut x, &mut v[k]);
}

/// A fresh vector holding the same elements.
pub(crate) fn vec_dup<T: Copy>(v: &Vec<T>) -> (r: Vec<T>)
    ensures
        r@ == v@,
{
    let mut r: Vec<T> = Vec::new();
    let mut i: usize = 0;
    while i < v.len()
        invariant
            i <= v@.len(),
            r@ == v@.take(i as int),
        decreases v@.len() - i,
    {
        r.push(v[i]);
        proof {
            assert(r@ =~= v@.take(i + 1));
        }
        i = i + 1;
    }
    proof {
        assert(v@.take(v@.len() as int) =~= v@);
    }
    r
}

} // verus!
