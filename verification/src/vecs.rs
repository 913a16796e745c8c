//! Small verified helpers on vectors of plain numbers.

use vstd::prelude::*;

verus! {

/// Membership in a sequence extended by one element.
pub proof fn lemma_push_contains(s: Seq<u32>, a: u32)
    ensures
        forall|y: u32| #[trigger] s.push(a).contains(y) <==> (s.contains(y) || y == a),
{
    assert forall|y: u32| #[trigger] s.push(a).contains(y) <==> (s.contains(y) || y == a) by {
        if s.push(a).contains(y) {
            let i = choose|i: int| 0 <= i < s.push(a).len() && s.push(a)[i] == y;
            if i < s.len() {
                assert(s[i] == y);
            }
        }
        if s.contains(y) {
            let i = choose|i: int| 0 <= i < s.len() && s[i] == y;
            assert(s.push(a)[i] == y);
        }
        if y == a {
            assert(s.push(a)[s.len() as int] == y);
        }
    }
}

/// Whether a vector of ASNs contains a value.
pub fn contains_asn(v: &Vec<u32>, x: u32) -> (r: bool)
    ensures
        r == v@.contains(x),
{
    let mut i: usize = 0;
    while i < v.len()
        invariant
            i <= v.len(),
            forall|j: int| 0 <= j < i ==> v@[j] != x,
        decreases v.len() - i,
    {
        if v[i] == x {
            return true;
        }
        i = i + 1;
    }
    false
}

/// The elements of `v` that occur in `allowed`, in order.
pub fn filter_present(v: &Vec<u32>, allowed: &Vec<u32>) -> (r: Vec<u32>)
    ensures
        r@ == v@.filter(|x: u32| allowed@.contains(x)),
{
    let mut r: Vec<u32> = Vec::new();
    let mut i: usize = 0;
    proof {
        reveal(Seq::filter);
        assert(v@.take(0) =~= Seq::<u32>::empty());
    }
    while i < v.len()
        invariant
            i <= v.len(),
            r@ == v@.take(i as int).filter(|x: u32| allowed@.contains(x)),
        decreases v.len() - i,
    {
        proof {
            reveal(Seq::filter);
            assert(v@.take(i as int + 1).drop_last() =~= v@.take(i as int));
            assert(v@.take(i as int + 1).last() == v@[i as int]);
        }
        if contains_asn(allowed, v[i]) {
            r.push(v[i]);
        }
        i = i + 1;
    }
    proof {
        assert(v@.take(v@.len() as int) =~= v@);
    }
    r
}

/// Append a value unless it is already present; the result holds exactly the
/// old elements and the value.
pub fn push_unique(v: &mut Vec<u32>, x: u32)
    ensures
        forall|y: u32| final(v)@.contains(y) <==> (old(v)@.contains(y) || y == x),
        old(v)@.no_duplicates() ==> final(v)@.no_duplicates(),
        final(v)@.len() >= old(v)@.len(),
        final(v)@.len() <= old(v)@.len() + 1,
{
    if !contains_asn(v, x) {
        let ghost pre = v@;
        v.push(x);
        proof {
            assert forall|y: u32| final(v)@.contains(y) <==> (pre.contains(y) || y == x) by {
                if final(v)@.contains(y) {
                    let i = choose|i: int| 0 <= i < final(v)@.len() && final(v)@[i] == y;
                    if i < pre.len() {
                        assert(pre[i] == y);
                    }
                } else {
                }
                if pre.contains(y) {
                    let i = choose|i: int| 0 <= i < pre.len() && pre[i] == y;
                    assert(final(v)@[i] == y);
                }
                if y == x {
                    assert(final(v)@[pre.len() as int] == x);
                }
            }
            if pre.no_duplicates() {
                assert(final(v)@.no_duplicates());
            }
        }
    }
}

/// Copy of a vector of plain numbers.
pub fn clone_u32_vec(v: &Vec<u32>) -> (r: Vec<u32>)
    ensures
        r@ == v@,
{
    let mut r: Vec<u32> = Vec::new();
    let mut i: usize = 0;
    while i < v.len()
        invariant
            i <= v.len(),
            r@ =~= v@.take(i as int),
        decreases v.len() - i,
    {
        r.push(v[i]);
        i = i + 1;
    }
    proof {
        assert(r@ =~= v@);
    }
    r
}

/// A duplicate-free sequence is no longer than any sequence holding all its
/// elements.
pub proof fn lemma_unique_subset_len(s1: Seq<u32>, s2: Seq<u32>)
    requires
        s1.no_duplicates(),
        forall|x: u32| s1.contains(x) ==> s2.contains(x),
    ensures
        s1.len() <= s2.len(),
{
    broadcast use vstd::seq_lib::seq_to_set_is_finite;

    s1.unique_seq_to_set();
    s2.lemma_cardinality_of_set();
    assert(s1.to_set() <= s2.to_set());
    vstd::set_lib::lemma_len_subset(s1.to_set(), s2.to_set());
}

/// Two duplicate-free sequences of equal length, one holding all elements of
/// the other, hold the same elements.
pub proof fn lemma_unique_equal_len_same_elems(s1: Seq<u32>, s2: Seq<u32>)
    requires
        s1.no_duplicates(),
        s2.no_duplicates(),
        forall|x: u32| s1.contains(x) ==> s2.contains(x),
        s1.len() == s2.len(),
    ensures
        forall|x: u32| s2.contains(x) ==> s1.contains(x),
{
    broadcast use vstd::seq_lib::seq_to_set_is_finite;

    s1.unique_seq_to_set();
    s2.unique_seq_to_set();
    assert(s1.to_set() <= s2.to_set());
    vstd::set_lib::lemma_subset_equality(s1.to_set(), s2.to_set());
    assert forall|x: u32| s2.contains(x) implies s1.contains(x) by {
        assert(s2.to_set().contains(x));
        assert(s1.to_set().contains(x));
    }
}

/// Whether two vectors of plain numbers hold the same sequence.
pub fn u32_vec_eq(a: &Vec<u32>, b: &Vec<u32>) -> (r: bool)
    ensures
        r == (a@ == b@),
{
    if a.len() != b.len() {
        return false;
    }
    let mut i: usize = 0;
    while i < a.len()
        invariant
            a@.len() == b@.len(),
            i <= a@.len(),
            forall|j: int| 0 <= j < i ==> a@[j] == b@[j],
        decreases a.len() - i,
    {
        if a[i] != b[i] {
            return false;
        }
        i = i + 1;
    }
    proof {
        assert(a@ =~= b@);
    }
    true
}

/// Whether two vectors of plain numbers agree from an index on.
pub fn u32_suffix_eq(a: &Vec<u32>, b: &Vec<u32>, start: usize) -> (r: bool)
    requires
        start <= a@.len(),
        start <= b@.len(),
    ensures
        r == (a@.skip(start as int) == b@.skip(start as int)),
{
    if a.len() != b.len() {
        proof {
            assert(a@.skip(start as int).len() != b@.skip(start as int).len());
        }
        return false;
    }
    let mut i: usize = start;
    while i < a.len()
        invariant
            a@.len() == b@.len(),
            start <= i <= a@.len(),
            forall|j: int| start <= j < i ==> a@[j] == b@[j],
        decreases a.len() - i,
    {
        if a[i] != b[i] {
            proof {
                assert(a@.skip(start as int)[i - start] != b@.skip(start as int)[i - start]);
            }
            return false;
        }
        i = i + 1;
    }
    proof {
        assert(a@.skip(start as int) =~= b@.skip(start as int));
    }
    true
}

/// Filtering by an allowed set that holds every element keeps the sequence.
pub proof fn lemma_filter_all_present(s: Seq<u32>, allowed: Seq<u32>)
    requires
        forall|x: u32| s.contains(x) ==> allowed.contains(x),
    ensures
        s.filter(|x: u32| allowed.contains(x)) =~= s,
    decreases s.len(),
{
    reveal(Seq::filter);
    if s.len() > 0 {
        assert forall|x: u32| s.drop_last().contains(x) implies allowed.contains(x) by {
            let i = choose|i: int| 0 <= i < s.drop_last().len() && s.drop_last()[i] == x;
            assert(s[i] == x);
        }
        lemma_filter_all_present(s.drop_last(), allowed);
        assert(s.contains(s.last())) by {
            assert(s[s.len() - 1] == s.last());
        }
    }
}

/// Membership in a filtered sequence: the element is in the original and
/// satisfies the predicate.
pub proof fn lemma_filter_contains(s: Seq<u32>, allowed: Seq<u32>, x: u32)
    ensures
        s.filter(|y: u32| allowed.contains(y)).contains(x) <==> (s.contains(x) && allowed.contains(
            x,
        )),
    decreases s.len(),
{
    reveal(Seq::filter);
    if s.len() > 0 {
        lemma_filter_contains(s.drop_last(), allowed, x);
        let f = s.filter(|y: u32| allowed.contains(y));
        let fd = s.drop_last().filter(|y: u32| allowed.contains(y));
        if allowed.contains(s.last()) {
            assert(f =~= fd.push(s.last()));
            lemma_push_contains(fd, s.last());
        } else {
            assert(f =~= fd);
        }
        assert(s.contains(x) <==> (s.drop_last().contains(x) || x == s.last())) by {
            if s.contains(x) {
                let i = choose|i: int| 0 <= i < s.len() && s[i] == x;
                if i < s.len() - 1 {
                    assert(s.drop_last()[i] == x);
                }
            }
            if s.drop_last().contains(x) {
                let i = choose|i: int| 0 <= i < s.drop_last().len() && s.drop_last()[i] == x;
                assert(s[i] == x);
            }
            if x == s.last() {
                assert(s[s.len() - 1] == x);
            }
        }
    }
}

} // verus!
