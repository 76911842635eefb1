//! Sets of chunk keys held as lists without repeats, and facts about
//! sequences without repeats.
use vstd::prelude::*;

verus! {

/// A chunk, or a chunk group, is referred to by a key into its arena.
pub type ChunkUkey = u32;

pub type ChunkGroupUkey = u32;

pub proof fn lemma_remove_index_to_set<A>(s: Seq<A>, i: int)
    requires
        0 <= i < s.len(),
        s.no_duplicates(),
    ensures
        s.remove(i).to_set() == s.to_set().remove(s[i]),
        s.remove(i).no_duplicates(),
{
    let r = s.remove(i);
    assert forall|e: A| #[trigger] r.to_set().contains(e) <==> s.to_set().remove(s[i]).contains(e) by {
        if r.to_set().contains(e) {
            let k = choose|k: int| 0 <= k < r.len() && r[k] == e;
            if k < i {
                assert(s[k] == e);
            } else {
                assert(s[k + 1] == e);
            }
        }
        if s.to_set().contains(e) && e != s[i] {
            let k = choose|k: int| 0 <= k < s.len() && s[k] == e;
            if k < i {
                assert(r[k] == e);
            } else {
                assert(r[k - 1] == e);
            }
        }
    }
    assert(r.to_set() =~= s.to_set().remove(s[i]));
    assert forall|a: int, b: int| 0 <= a < b < r.len() implies r[a] != r[b] by {
        let sa = if a < i { a } else { a + 1 };
        let sb = if b < i { b } else { b + 1 };
        assert(r[a] == s[sa] && r[b] == s[sb]);
    }
}

pub proof fn lemma_push_no_duplicates<A>(s: Seq<A>, x: A)
    requires
        s.no_duplicates(),
        !s.contains(x),
    ensures
        s.push(x).no_duplicates(),
        s.push(x).to_set() == s.to_set().insert(x),
{
    s.lemma_push_to_set_commute(x);
    assert forall|a: int, b: int| 0 <= a < b < s.push(x).len() implies s.push(x)[a] != s.push(
        x,
    )[b] by {
        if b == s.len() {
            assert(s.contains(s[a]));
        }
    }
}

/// Where `c` stands in `v`, if it does.
pub fn ukey_position(v: &Vec<u32>, c: u32) -> (r: Option<usize>)
    ensures
        match r {
            Some(i) => i < v@.len() && v@[i as int] == c,
            None => !v@.contains(c),
        },
{
    let mut i: usize = 0;
    while i < v.len()
        invariant
            0 <= i <= v@.len(),
            forall|j: int| 0 <= j < i ==> v@[j] != c,
        decreases v@.len() - i,
    {
        if v[i] == c {
            return Some(i);
        }
        i = i + 1;
    }
    None
}

/// Adds `c` to the set `v`.
pub fn ukey_insert(v: &mut Vec<u32>, c: u32)
    requires
        old(v)@.no_duplicates(),
    ensures
        final(v)@.no_duplicates(),
        final(v)@.to_set() == old(v)@.to_set().insert(c),
{
    match ukey_position(v, c) {
        Some(_) => {
            assert(v@.to_set().insert(c) =~= v@.to_set());
        },
        None => {
            proof {
                lemma_push_no_duplicates(v@, c);
            }
            v.push(c);
        },
    }
}

/// Takes `c` out of the set `v`.
pub fn ukey_remove(v: &mut Vec<u32>, c: u32)
    requires
        old(v)@.no_duplicates(),
    ensures
        final(v)@.no_duplicates(),
        final(v)@.to_set() == old(v)@.to_set().remove(c),
{
    match ukey_position(v, c) {
        Some(i) => {
            proof {
                lemma_remove_index_to_set(v@, i as int);
            }
            v.remove(i);
        },
        None => {
            assert(v@.to_set().remove(c) =~= v@.to_set());
        },
    }
}

/// A copy of a list of keys.
pub fn copy_ukeys(v: &Vec<u32>) -> (r: Vec<u32>)
    ensures
        r@ == v@,
{
    let mut r: Vec<u32> = Vec::new();
    let mut i: usize = 0;
    while i < v.len()
        invariant
            0 <= i <= v@.len(),
            r@ == v@.subrange(0, i as int),
        decreases v@.len() - i,
    {
        r.push(v[i]);
        i = i + 1;
        assert(r@ =~= v@.subrange(0, i as int));
    }
    assert(v@.subrange(0, v@.len() as int) =~= v@);
    r
}

} // verus!
