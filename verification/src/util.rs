//! Small sequence facts shared by the set- and map-like collections of the
//! model, which are held as vectors with distinctness invariants.
use vstd::prelude::*;

verus! {

/// Pairwise distinctness of a sequence's elements.
pub open spec fn distinct<A>(s: Seq<A>) -> bool {
    forall|i: int, j: int| 0 <= i < j < s.len() ==> s[i] != s[j]
}

/// The views of a sequence of strings.
pub open spec fn string_views(s: Seq<String>) -> Seq<Seq<char>> {
    Seq::new(s.len(), |i: int| s[i]@)
}

/// s with the first occurrence of x removed.
pub open spec fn remove_first<A>(s: Seq<A>, x: A) -> Seq<A>
    decreases s.len(),
{
    if s.len() == 0 {
        s
    } else if s[0] == x {
        s.drop_first()
    } else {
        seq![s[0]] + remove_first(s.drop_first(), x)
    }
}

/// Removing the first occurrence removes exactly the element at the first
/// matching index.
pub proof fn lemma_remove_first_at<A>(s: Seq<A>, x: A, i: int)
    requires
        0 <= i < s.len(),
        s[i] == x,
        forall|j: int| 0 <= j < i ==> s[j] != x,
    ensures
        remove_first(s, x) == s.subrange(0, i) + s.subrange(i + 1, s.len() as int),
    decreases i,
{
    if i == 0 {
        assert(remove_first(s, x) =~= s.subrange(0, 0) + s.subrange(1, s.len() as int));
    } else {
        let t = s.drop_first();
        assert(t[i - 1] == x);
        assert(forall|j: int| 0 <= j < i - 1 ==> t[j] == s[j + 1] && t[j] != x);
        lemma_remove_first_at(t, x, i - 1);
        assert(seq![s[0]] + (t.subrange(0, i - 1) + t.subrange(i, t.len() as int)) =~= s.subrange(
            0,
            i,
        ) + s.subrange(i + 1, s.len() as int));
    }
}

/// Removing an absent element changes nothing.
pub proof fn lemma_remove_first_absent<A>(s: Seq<A>, x: A)
    requires
        !s.contains(x),
    ensures
        remove_first(s, x) == s,
    decreases s.len(),
{
    if s.len() > 0 {
        assert(s[0] != x);
        assert(!s.drop_first().contains(x)) by {
            if s.drop_first().contains(x) {
                let k = choose|k: int| 0 <= k < s.drop_first().len() && s.drop_first()[k] == x;
                assert(s[k + 1] == x);
            }
        }
        lemma_remove_first_absent(s.drop_first(), x);
        assert(seq![s[0]] + s.drop_first() =~= s);
    }
}

/// Every element of the remainder was an element before.
pub proof fn lemma_remove_first_subset<A>(s: Seq<A>, x: A)
    ensures
        forall|y: A| remove_first(s, x).contains(y) ==> s.contains(y),
    decreases s.len(),
{
    if s.len() > 0 && s[0] != x {
        lemma_remove_first_subset(s.drop_first(), x);
        assert forall|y: A| remove_first(s, x).contains(y) implies s.contains(y) by {
            let r = seq![s[0]] + remove_first(s.drop_first(), x);
            let k = choose|k: int| 0 <= k < r.len() && r[k] == y;
            if k == 0 {
                assert(s[0] == y);
            } else {
                assert(remove_first(s.drop_first(), x)[k - 1] == y);
                assert(remove_first(s.drop_first(), x).contains(y));
                assert(s.drop_first().contains(y));
                let m = choose|m: int|
                    0 <= m < s.drop_first().len() && s.drop_first()[m] == y;
                assert(s[m + 1] == y);
            }
        }
    } else if s.len() > 0 {
        assert forall|y: A| remove_first(s, x).contains(y) implies s.contains(y) by {
            let k = choose|k: int|
                0 <= k < s.drop_first().len() && s.drop_first()[k] == y;
            assert(s[k + 1] == y);
        }
    }
}

/// Distinctness survives removal.
pub proof fn lemma_remove_first_distinct<A>(s: Seq<A>, x: A)
    requires
        distinct(s),
    ensures
        distinct(remove_first(s, x)),
    decreases s.len(),
{
    if s.len() > 0 {
        assert(distinct(s.drop_first())) by {
            assert(forall|i: int, j: int|
                0 <= i < j < s.drop_first().len() ==> s.drop_first()[i] == s[i + 1]
                    && s.drop_first()[j] == s[j + 1]);
        }
        if s[0] != x {
            lemma_remove_first_distinct(s.drop_first(), x);
            lemma_remove_first_subset(s.drop_first(), x);
            let r = seq![s[0]] + remove_first(s.drop_first(), x);
            assert forall|i: int, j: int| 0 <= i < j < r.len() implies r[i] != r[j] by {
                if i == 0 {
                    assert(r[j] == remove_first(s.drop_first(), x)[j - 1]);
                    assert(remove_first(s.drop_first(), x).contains(r[j]));
                    assert(s.drop_first().contains(r[j]));
                    let m = choose|m: int|
                        0 <= m < s.drop_first().len() && s.drop_first()[m] == r[j];
                    assert(s[m + 1] == r[j]);
                    assert(s[0] != s[m + 1]);
                } else {
                    assert(r[i] == remove_first(s.drop_first(), x)[i - 1]);
                    assert(r[j] == remove_first(s.drop_first(), x)[j - 1]);
                }
            }
        }
    }
}

/// Appending a fresh element keeps distinctness.
pub proof fn lemma_distinct_push<A>(s: Seq<A>, x: A)
    requires
        distinct(s),
        !s.contains(x),
    ensures
        distinct(s.push(x)),
{
    assert forall|i: int, j: int| 0 <= i < j < s.push(x).len() implies s.push(x)[i] != s.push(
        x,
    )[j] by {
        if j == s.len() {
            assert(s.push(x)[i] == s[i]);
            assert(s.contains(s[i]));
        }
    }
}

} // verus!
