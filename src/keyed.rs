//! Lists of pairs keyed by an identifier, with no key twice: the tables
//! that map a module identifier to a value.
use vstd::prelude::*;

verus! {

/// The key texts of a keyed list, in order.
pub open spec fn keys_of<V>(s: Seq<(String, V)>) -> Seq<Seq<char>> {
    s.map_values(|e: (String, V)| e.0@)
}

pub open spec fn keys_unique<V>(s: Seq<(String, V)>) -> bool {
    keys_of(s).no_duplicates()
}

pub open spec fn has_key<V>(s: Seq<(String, V)>, m: Seq<char>) -> bool {
    exists|i: int| 0 <= i < s.len() && (#[trigger] s[i]).0@ == m
}

pub open spec fn key_index<V>(s: Seq<(String, V)>, m: Seq<char>) -> int {
    choose|i: int| 0 <= i < s.len() && (#[trigger] s[i]).0@ == m
}

/// The value stored under `m`, if any.
pub open spec fn keyed_get<V>(s: Seq<(String, V)>, m: Seq<char>) -> Option<V> {
    if has_key(s, m) {
        Some(s[key_index(s, m)].1)
    } else {
        None
    }
}

pub proof fn lemma_key_index<V>(s: Seq<(String, V)>, i: int)
    requires
        keys_unique(s),
        0 <= i < s.len(),
    ensures
        has_key(s, s[i].0@),
        key_index(s, s[i].0@) == i,
        keyed_get(s, s[i].0@) == Some(s[i].1),
{
    assert(s[i].0@ == keys_of(s)[i]);
    let j = key_index(s, s[i].0@);
    assert(keys_of(s)[j] == keys_of(s)[i]);
}

pub proof fn lemma_keyed_update<V>(s: Seq<(String, V)>, i: int, k: String, v: V)
    requires
        keys_unique(s),
        0 <= i < s.len(),
        k@ == s[i].0@,
    ensures
        keys_unique(s.update(i, (k, v))),
        keys_of(s.update(i, (k, v))) == keys_of(s),
        forall|m: Seq<char>|
            #![trigger keyed_get(s.update(i, (k, v)), m)]
            keyed_get(s.update(i, (k, v)), m) == if m == k@ {
                Some(v)
            } else {
                keyed_get(s, m)
            },
{
    let t = s.update(i, (k, v));
    assert(keys_of(t) =~= keys_of(s));
    lemma_key_index(t, i);
    assert forall|m: Seq<char>| m != k@ implies #[trigger] keyed_get(t, m) == keyed_get(s, m) by {
        if has_key(s, m) {
            let j = key_index(s, m);
            assert(t[j] == s[j]);
            lemma_key_index(t, j);
        }
        if has_key(t, m) {
            let j = key_index(t, m);
            assert(t[j] == s[j]);
        }
    }
}

pub proof fn lemma_keyed_push<V>(s: Seq<(String, V)>, k: String, v: V)
    requires
        keys_unique(s),
        !has_key(s, k@),
    ensures
        keys_unique(s.push((k, v))),
        keys_of(s.push((k, v))) == keys_of(s).push(k@),
        forall|m: Seq<char>|
            #![trigger keyed_get(s.push((k, v)), m)]
            keyed_get(s.push((k, v)), m) == if m == k@ {
                Some(v)
            } else {
                keyed_get(s, m)
            },
{
    let t = s.push((k, v));
    assert(keys_of(t) =~= keys_of(s).push(k@));
    assert forall|a: int, b: int| 0 <= a < b < keys_of(t).len() implies keys_of(t)[a] != keys_of(
        t,
    )[b] by {
        if b == s.len() {
            assert(s[a].0@ == keys_of(s)[a]);
        }
    }
    lemma_key_index(t, s.len() as int);
    assert forall|m: Seq<char>| m != k@ implies #[trigger] keyed_get(t, m) == keyed_get(s, m) by {
        if has_key(s, m) {
            let j = key_index(s, m);
            assert(t[j] == s[j]);
            lemma_key_index(t, j);
        }
        if has_key(t, m) {
            let j = key_index(t, m);
            assert(t[j] == s[j]);
        }
    }
}

pub proof fn lemma_keyed_remove<V>(s: Seq<(String, V)>, i: int)
    requires
        keys_unique(s),
        0 <= i < s.len(),
    ensures
        keys_unique(s.remove(i)),
        keys_of(s.remove(i)) == keys_of(s).remove(i),
        forall|m: Seq<char>|
            #![trigger keyed_get(s.remove(i), m)]
            keyed_get(s.remove(i), m) == if m == s[i].0@ {
                None
            } else {
                keyed_get(s, m)
            },
{
    let t = s.remove(i);
    assert(keys_of(t) =~= keys_of(s).remove(i));
    crate::ukey_set::lemma_remove_index_to_set(keys_of(s), i);
    assert forall|m: Seq<char>| #[trigger] keyed_get(t, m) == if m == s[i].0@ {
        None
    } else {
        keyed_get(s, m)
    } by {
        if has_key(t, m) {
            let j = key_index(t, m);
            let sj = if j < i { j } else { j + 1 };
            assert(t[j] == s[sj]);
            assert(keys_of(t)[j] == m);
            if m == s[i].0@ {
                assert(keys_of(s)[sj] == keys_of(s)[i]);
            }
            lemma_key_index(t, j);
            lemma_key_index(s, sj);
        }
        if has_key(s, m) && m != s[i].0@ {
            let j = key_index(s, m);
            let tj = if j < i { j } else { j - 1 };
            assert(t[tj] == s[j]);
            lemma_key_index(t, tj);
        }
    }
}

/// Where the key `m` stands in `v`, if it does.
pub fn key_position<V>(v: &Vec<(String, V)>, m: &String) -> (r: Option<usize>)
    ensures
        match r {
            Some(i) => i < v@.len() && v@[i as int].0@ == m@,
            None => !has_key(v@, m@),
        },
{
    let mut i: usize = 0;
    while i < v.len()
        invariant
            0 <= i <= v@.len(),
            forall|j: int| 0 <= j < i ==> (#[trigger] v@[j]).0@ != m@,
        decreases v@.len() - i,
    {
        if v[i].0 == *m {
            return Some(i);
        }
        i = i + 1;
    }
    None
}

/// Puts `val` in place of the value at `i`, and hands back the value that
/// stood there.
pub fn swap_value<V>(v: &mut Vec<(String, V)>, i: usize, val: V) -> (r: V)
    requires
        i < old(v)@.len(),
    ensures
        r == old(v)@[i as int].1,
        final(v)@ == old(v)@.update(i as int, (old(v)@[i as int].0, val)),
{
    let mut val = val;
    std::mem::swap(&mut v[i].1, &mut val);
    val
}

} // verus!
