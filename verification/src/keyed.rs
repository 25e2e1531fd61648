//! Association lists keyed by an integer: lookup, first occurrence, and
//! insert-or-replace, shared by entity maps, component lists, resource
//! tables and the type registry.

use vstd::prelude::*;

verus! {

/// A value carrying an integer key.
pub trait Keyed: Sized {
    /// The key.
    spec fn key(&self) -> u64;

    /// The key, computed.
    fn key_of(&self) -> (k: u64)
        ensures
            k == self.key(),
    ;
}

/// Whether the sequence holds an element with the given key.
pub open spec fn has_key<T: Keyed>(s: Seq<T>, k: u64) -> bool {
    exists|i: int| 0 <= i < s.len() && s[i].key() == k
}

/// The first element with the given key, if any.
pub open spec fn find<T: Keyed>(s: Seq<T>, k: u64) -> Option<T>
    decreases s.len(),
{
    if s.len() == 0 {
        None
    } else if s[0].key() == k {
        Some(s[0])
    } else {
        find(s.drop_first(), k)
    }
}

/// All keys are distinct.
pub open spec fn unique_keys<T: Keyed>(s: Seq<T>) -> bool {
    forall|i: int, j: int| 0 <= i < j < s.len() ==> s[i].key() != s[j].key()
}

/// Looking up in the suffix gives the same result when no earlier element
/// carries the key.
pub proof fn lemma_find_skip<T: Keyed>(s: Seq<T>, k: u64, i: int)
    requires
        0 <= i <= s.len(),
        forall|j: int| 0 <= j < i ==> s[j].key() != k,
    ensures
        find(s, k) == find(s.skip(i), k),
    decreases i,
{
    if i > 0 {
        assert(s.drop_first() =~= s.skip(1));
        lemma_find_skip(s.drop_first(), k, i - 1);
        assert(s.drop_first().skip(i - 1) =~= s.skip(i));
    } else {
        assert(s.skip(0) =~= s);
    }
}

/// A key is present exactly when `find` returns an element, and that element
/// carries the key.
pub proof fn lemma_find_some<T: Keyed>(s: Seq<T>, k: u64)
    ensures
        has_key(s, k) <==> find(s, k) is Some,
        find(s, k) matches Some(v) ==> v.key() == k && s.contains(v),
    decreases s.len(),
{
    if s.len() > 0 && s[0].key() != k {
        lemma_find_some(s.drop_first(), k);
        if has_key(s, k) {
            let i = choose|i: int| 0 <= i < s.len() && s[i].key() == k;
            assert(s.drop_first()[i - 1] == s[i]);
        }
        if has_key(s.drop_first(), k) {
            let i = choose|i: int| 0 <= i < s.drop_first().len() && s.drop_first()[i].key() == k;
            assert(s[i + 1] == s.drop_first()[i]);
        }
        if find(s.drop_first(), k) is Some {
            let v = find(s.drop_first(), k)->Some_0;
            let i = choose|i: int| 0 <= i < s.drop_first().len() && s.drop_first()[i] == v;
            assert(s[i + 1] == v);
        }
    }
}

/// The first occurrence of a key determines `find`.
pub proof fn lemma_find_at<T: Keyed>(s: Seq<T>, k: u64, i: int)
    requires
        0 <= i < s.len(),
        s[i].key() == k,
        forall|j: int| 0 <= j < i ==> s[j].key() != k,
    ensures
        find(s, k) == Some(s[i]),
{
    lemma_find_skip(s, k, i);
    assert(s.skip(i)[0] == s[i]);
}

/// Two sequences that agree wherever the key occurs have the same lookup.
pub proof fn lemma_find_agree<T: Keyed>(s: Seq<T>, t: Seq<T>, k: u64)
    requires
        s.len() == t.len(),
        forall|i: int| 0 <= i < s.len() ==> (s[i].key() == k <==> t[i].key() == k),
        forall|i: int| 0 <= i < s.len() && s[i].key() == k ==> s[i] == t[i],
    ensures
        find(s, k) == find(t, k),
    decreases s.len(),
{
    if s.len() > 0 && s[0].key() != k {
        assert forall|i: int| 0 <= i < s.drop_first().len() implies
            (s.drop_first()[i].key() == k <==> t.drop_first()[i].key() == k)
            && (s.drop_first()[i].key() == k ==> s.drop_first()[i] == t.drop_first()[i]) by {
            assert(s.drop_first()[i] == s[i + 1]);
            assert(t.drop_first()[i] == t[i + 1]);
        }
        lemma_find_agree(s.drop_first(), t.drop_first(), k);
    }
}

/// The index of the first element with the given key.
pub fn find_index<T: Keyed>(s: &Vec<T>, k: u64) -> (r: Option<usize>)
    ensures
        match r {
            Some(i) => i < s@.len() && s@[i as int].key() == k
                && (forall|j: int| 0 <= j < i ==> s@[j].key() != k)
                && find(s@, k) == Some(s@[i as int]),
            None => !has_key(s@, k) && find(s@, k) is None,
        },
{
    let mut i: usize = 0;
    while i < s.len()
        invariant
            i <= s@.len(),
            forall|j: int| 0 <= j < i ==> s@[j].key() != k,
        decreases s@.len() - i,
    {
        if s[i].key_of() == k {
            proof {
                lemma_find_at(s@, k, i as int);
            }
            return Some(i);
        }
        i = i + 1;
    }
    proof {
        lemma_find_some(s@, k);
    }
    None
}

/// Replace the first element with the new value's key, or append the value
/// if the key is absent. Under unique keys this is keyed insertion.
pub fn upsert<T: Keyed>(s: &mut Vec<T>, v: T)
    ensures
        has_key(old(s)@, v.key()) ==> {
            let i = choose|i: int| 0 <= i < old(s)@.len() && old(s)@[i].key() == v.key()
                && (forall|j: int| 0 <= j < i ==> old(s)@[j].key() != v.key());
            final(s)@ == old(s)@.update(i, v)
        },
        !has_key(old(s)@, v.key()) ==> final(s)@ == old(s)@.push(v),
        find(final(s)@, v.key()) == Some(v),
        forall|k2: u64| k2 != v.key() ==> find(final(s)@, k2) == find(old(s)@, k2),
        unique_keys(old(s)@) ==> unique_keys(final(s)@),
        final(s)@.len() == old(s)@.len() + (if has_key(old(s)@, v.key()) { 0int } else { 1int }),
        forall|i: int|
            0 <= i < final(s)@.len() ==> final(s)@[i] == v || old(s)@.contains(
                #[trigger] final(s)@[i],
            ),
{
    let k = v.key_of();
    match find_index(s, k) {
        Some(i) => {
            proof {
                let w = choose|w: int| 0 <= w < s@.len() && s@[w].key() == v.key()
                    && (forall|j: int| 0 <= j < w ==> s@[j].key() != v.key());
                assert(w == i as int);
                lemma_find_at(s@.update(i as int, v), v.key(), i as int);
                assert forall|k2: u64| k2 != v.key() implies
                    find(s@.update(i as int, v), k2) == find(s@, k2) by {
                    lemma_find_agree(s@.update(i as int, v), s@, k2);
                }
            }
            proof {
                assert forall|m: int|
                    0 <= m < s@.update(i as int, v).len() implies s@.update(i as int, v)[m] == v
                    || s@.contains(#[trigger] s@.update(i as int, v)[m]) by {
                    if m != i {
                        assert(s@.update(i as int, v)[m] == s@[m]);
                    }
                }
            }
            s.set(i, v);
        },
        None => {
            proof {
                lemma_find_at(s@.push(v), v.key(), s@.len() as int);
                assert forall|k2: u64| k2 != v.key() implies
                    find(s@.push(v), k2) == find(s@, k2) by {
                    lemma_find_skip_push(s@, v, k2);
                }
            }
            proof {
                assert forall|m: int|
                    0 <= m < s@.push(v).len() implies s@.push(v)[m] == v || s@.contains(
                        #[trigger] s@.push(v)[m],
                    ) by {
                    if m < s@.len() {
                        assert(s@.push(v)[m] == s@[m]);
                    }
                }
            }
            s.push(v);
        },
    }
}

impl Keyed for u64 {
    open spec fn key(&self) -> u64 {
        *self
    }

    fn key_of(&self) -> (k: u64) {
        *self
    }
}

/// Appending a value with a different key does not change a lookup.
pub proof fn lemma_find_skip_push<T: Keyed>(s: Seq<T>, v: T, k: u64)
    requires
        v.key() != k,
    ensures
        find(s.push(v), k) == find(s, k),
    decreases s.len(),
{
    if s.len() == 0 {
        assert(s.push(v).drop_first() =~= s);
    } else if s[0].key() != k {
        lemma_find_skip_push(s.drop_first(), v, k);
        assert(s.push(v).drop_first() =~= s.drop_first().push(v));
    }
}

/// One step of filtering a prefix: extending the prefix by one element
/// extends the filtered sequence exactly when the predicate accepts it.
pub proof fn lemma_filter_take_step<T>(s: Seq<T>, p: spec_fn(T) -> bool, j: int)
    requires
        0 <= j < s.len(),
    ensures
        s.take(j + 1).filter(p) == if p(s[j]) {
            s.take(j).filter(p).push(s[j])
        } else {
            s.take(j).filter(p)
        },
{
    reveal(Seq::filter);
    assert(s.take(j + 1).drop_last() =~= s.take(j));
    assert(s.take(j + 1).last() == s[j]);
}

/// Filtering keeps keys unique, and every kept element comes from the
/// original sequence.
pub proof fn lemma_filter_unique<T: Keyed>(s: Seq<T>, p: spec_fn(T) -> bool)
    requires
        unique_keys(s),
    ensures
        unique_keys(s.filter(p)),
        forall|x: T| #[trigger] s.filter(p).contains(x) ==> s.contains(x),
    decreases s.len(),
{
    reveal(Seq::filter);
    if s.len() > 0 {
        let pre = s.drop_last();
        assert(unique_keys(pre)) by {
            assert forall|i: int, j: int| 0 <= i < j < pre.len() implies pre[i].key()
                != pre[j].key() by {
                assert(pre[i] == s[i] && pre[j] == s[j]);
            }
        }
        lemma_filter_unique(pre, p);
        let sub = pre.filter(p);
        assert forall|x: T| #[trigger] s.filter(p).contains(x) implies s.contains(x) by {
            let i = choose|i: int| 0 <= i < s.filter(p).len() && s.filter(p)[i] == x;
            if p(s.last()) {
                if i < sub.len() {
                    assert(sub.contains(x));
                    let j = choose|j: int| 0 <= j < pre.len() && pre[j] == x;
                    assert(s[j] == x);
                } else {
                    assert(x == s.last());
                    assert(s[s.len() - 1] == x);
                }
            } else {
                assert(sub.contains(x));
                let j = choose|j: int| 0 <= j < pre.len() && pre[j] == x;
                assert(s[j] == x);
            }
        }
        if p(s.last()) {
            assert(s.filter(p) == sub.push(s.last()));
            assert forall|i: int, j: int|
                0 <= i < j < s.filter(p).len() implies s.filter(p)[i].key()
                != s.filter(p)[j].key() by {
                if j < sub.len() {
                } else {
                    assert(s.filter(p)[j] == s.last());
                    assert(sub.contains(sub[i]));
                    let w = choose|w: int| 0 <= w < pre.len() && pre[w] == sub[i];
                    assert(s[w] == sub[i]);
                    assert(s[w].key() != s[s.len() - 1].key());
                }
            }
        }
    }
}

} // verus!
