use vstd::prelude::*;

verus! {

/// An entry of a table keyed by field path.
pub trait Keyed {
    spec fn key(&self) -> Seq<char>;

    fn key_ref(&self) -> (r: &String)
        ensures
            r@ == self.key(),
    ;
}

/// No two entries share a key.
pub open spec fn unique_keys<T: Keyed>(s: Seq<T>) -> bool {
    forall|i: int, j: int|
        0 <= i < s.len() && 0 <= j < s.len() && #[trigger] s[i].key() == #[trigger] s[j].key()
            ==> i == j
}

/// Some entry has key `k`.
pub open spec fn has_key<T: Keyed>(s: Seq<T>, k: Seq<char>) -> bool {
    exists|i: int| 0 <= i < s.len() && #[trigger] s[i].key() == k
}

/// The entry with key `k`, if any.
pub open spec fn lookup<T: Keyed>(s: Seq<T>, k: Seq<char>) -> Option<T> {
    if has_key(s, k) {
        Some(s[choose|i: int| 0 <= i < s.len() && #[trigger] s[i].key() == k])
    } else {
        None
    }
}

/// In a table without repeated keys, the entry at `i` is the one found for its key.
pub proof fn lemma_lookup_at<T: Keyed>(s: Seq<T>, i: int)
    requires
        unique_keys(s),
        0 <= i < s.len(),
    ensures
        lookup(s, s[i].key()) == Some(s[i]),
{
    let k = s[i].key();
    assert(has_key(s, k));
    let j = choose|j: int| 0 <= j < s.len() && #[trigger] s[j].key() == k;
    assert(s[j].key() == s[i].key());
}

/// Position of the entry with key `k`.
pub fn find_key<T: Keyed>(v: &Vec<T>, k: &String) -> (r: Option<usize>)
    ensures
        match r {
            Some(i) => i < v@.len() && v@[i as int].key() == k@ && (unique_keys(v@) ==> lookup(
                v@,
                k@,
            ) == Some(v@[i as int])),
            None => !has_key(v@, k@) && lookup(v@, k@) is None,
        },
{
    let mut i: usize = 0;
    while i < v.len()
        invariant
            0 <= i <= v@.len(),
            forall|j: int| 0 <= j < i ==> #[trigger] v@[j].key() != k@,
        decreases v@.len() - i,
    {
        if *v[i].key_ref() == *k {
            proof {
                if unique_keys(v@) {
                    lemma_lookup_at(v@, i as int);
                }
            }
            return Some(i);
        }
        i = i + 1;
    }
    None
}

/// Puts `e` in place of the entry with its key, or appends it.
pub fn insert_or_replace<T: Keyed>(v: &mut Vec<T>, e: T)
    requires
        unique_keys(old(v)@),
    ensures
        unique_keys(final(v)@),
        lookup(final(v)@, e.key()) == Some(e),
        forall|k: Seq<char>| k != e.key() ==> lookup(final(v)@, k) == lookup(old(v)@, k),
        forall|k: Seq<char>| has_key(final(v)@, k) <==> (k == e.key() || has_key(old(v)@, k)),
        has_key(old(v)@, e.key()) ==> final(v)@.len() == old(v)@.len(),
        has_key(old(v)@, e.key()) ==> forall|i: int|
            0 <= i < old(v)@.len() ==> #[trigger] final(v)@[i] == if old(v)@[i].key() == e.key() {
                e
            } else {
                old(v)@[i]
            },
        !has_key(old(v)@, e.key()) ==> final(v)@ == old(v)@.push(e),
        forall|i: int|
            0 <= i < final(v)@.len() ==> #[trigger] final(v)@[i] == e || old(v)@.contains(
                final(v)@[i],
            ),
{
    let ghost old_v = v@;
    let pos = find_key(v, e.key_ref());
    match pos {
        Some(i) => {
            v.set(i, e);
        },
        None => {
            v.push(e);
        },
    }
    let ghost new_v = v@;
    assert(unique_keys(new_v)) by {
        assert forall|a: int, b: int|
            0 <= a < new_v.len() && 0 <= b < new_v.len() && #[trigger] new_v[a].key()
                == #[trigger] new_v[b].key() implies a == b by {
            if a < old_v.len() && new_v[a] != e {
                assert(new_v[a] == old_v[a]);
            }
            if b < old_v.len() && new_v[b] != e {
                assert(new_v[b] == old_v[b]);
            }
        }
    }
    assert(has_key(new_v, e.key())) by {
        match pos {
            Some(i) => assert(new_v[i as int] == e),
            None => assert(new_v[old_v.len() as int] == e),
        }
    }
    assert forall|k: Seq<char>| k != e.key() implies lookup(new_v, k) == lookup(old_v, k) by {
        if has_key(old_v, k) {
            let j = choose|j: int| 0 <= j < old_v.len() && #[trigger] old_v[j].key() == k;
            assert(new_v[j] == old_v[j]);
            lemma_lookup_at(old_v, j);
            lemma_lookup_at(new_v, j);
        }
        if has_key(new_v, k) {
            let j = choose|j: int| 0 <= j < new_v.len() && #[trigger] new_v[j].key() == k;
            assert(new_v[j] == old_v[j]);
        }
    }
    assert forall|k: Seq<char>| has_key(new_v, k) <==> (k == e.key() || has_key(old_v, k)) by {
        if has_key(old_v, k) && k != e.key() {
            let j = choose|j: int| 0 <= j < old_v.len() && #[trigger] old_v[j].key() == k;
            assert(new_v[j] == old_v[j]);
        }
        if has_key(new_v, k) && k != e.key() {
            let j = choose|j: int| 0 <= j < new_v.len() && #[trigger] new_v[j].key() == k;
            assert(new_v[j] == old_v[j]);
        }
    }
    assert forall|i: int| 0 <= i < new_v.len() implies #[trigger] new_v[i] == e || old_v.contains(
        new_v[i],
    ) by {
        if new_v[i] != e {
            assert(new_v[i] == old_v[i]);
        }
    }
    assert(has_key(old_v, e.key()) ==> forall|i: int|
        0 <= i < old_v.len() ==> #[trigger] new_v[i] == if old_v[i].key() == e.key() {
            e
        } else {
            old_v[i]
        }) by {
        if let Some(p) = pos {
            assert forall|i: int| 0 <= i < old_v.len() implies #[trigger] new_v[i] == if old_v[i].key() == e.key() {
                e
            } else {
                old_v[i]
            } by {
                if i != p && old_v[i].key() == e.key() {
                    assert(old_v[i].key() == old_v[p as int].key());
                }
            }
        }
    }
    proof {
        match pos {
            Some(i) => lemma_lookup_at(new_v, i as int),
            None => lemma_lookup_at(new_v, old_v.len() as int),
        }
    }
}

} // verus!
