use vstd::prelude::*;

verus! {

/// An element-for-element copy of `v`.
pub(crate) fn copied<T: Copy>(v: &[T]) -> (r: Vec<T>)
    ensures
        r@ == v@,
{
    let mut r: Vec<T> = Vec::new();
    let mut i: usize = 0;
    while i < v.len()
        invariant
            i <= v@.len(),
            r@ == v@.subrange(0, i as int),
        decreases v@.len() - i,
    {
        r.push(v[i]);
        i = i + 1;
    }
    proof {
        assert(r@ =~= v@);
    }
    r
}

/// A vector holding `n` copies of `value`.
pub(crate) fn filled_vec<T: Copy>(value: T, n: usize) -> (r: Vec<T>)
    ensures
        r@ == Seq::new(n as nat, |i: int| value),
{
    let mut r: Vec<T> = Vec::new();
    let mut i: usize = 0;
    while i < n
        invariant
            i <= n,
            r@ == Seq::new(i as nat, |j: int| value),
        decreases n - i,
    {
        r.push(value);
        i = i + 1;
        proof {
            assert(r@ =~= Seq::new(i as nat, |j: int| value));
        }
    }
    r
}

/// The elements of `v` in reverse order.
pub(crate) fn reversed<T>(v: Vec<T>) -> (r: Vec<T>)
    ensures
        r@ == v@.reverse(),
{
    let ghost original = v@;
    let mut rest = v;
    let mut r: Vec<T> = Vec::new();
    while rest.len() > 0
        invariant
            rest@ == original.take(rest@.len() as int),
            r@.len() + rest@.len() == original.len(),
            forall|k: int| 0 <= k < r@.len() ==> r@[k] == original[original.len() - 1 - k],
        decreases rest@.len(),
    {
        let ghost n = rest@.len() as int;
        let x = rest.pop().unwrap();
        proof {
            assert(original.take(n)[n - 1] == original[n - 1]);
            assert(rest@ =~= original.take(n - 1));
        }
        r.push(x);
    }
    assert(r@ =~= original.reverse());
    r
}

/// Taking the last element off the reversal of `s.skip(i)` leaves the
/// reversal of `s.skip(i + 1)`; the element taken is `s[i]`.
pub(crate) proof fn lemma_reverse_skip<T>(s: Seq<T>, i: int)
    requires
        0 <= i < s.len(),
    ensures
        s.skip(i).reverse().drop_last() == s.skip(i + 1).reverse(),
        s.skip(i).reverse().last() == s[i],
        s.skip(i).reverse().len() == s.len() - i,
{
    let a = s.skip(i).reverse();
    let b = s.skip(i + 1).reverse();
    assert(a.len() == s.len() - i);
    assert(a.drop_last() =~= b);
}

/// The text made of `chars`, in order: `String::from_iter` over characters
/// collects them into a string whose characters are exactly these.
#[verifier::external_body]
pub(crate) fn text_of(chars: Vec<char>) -> (r: String)
    ensures
        r@ == chars@,
{
    String::from_iter(chars)
}

} // verus!
