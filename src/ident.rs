//! Module identifiers: their textual order, lookups in lists of them, and
//! sorting by that order.
use vstd::prelude::*;

verus! {

/// A module is referred to by its identifier, which is unique and stable.
pub type ModuleIdentifier = String;

/// The texts of a sequence of identifiers.
pub open spec fn ids(s: Seq<String>) -> Seq<Seq<char>> {
    s.map_values(|x: String| x@)
}

/// `a` orders strictly before `b`, comparing from position `i` on, character
/// by character by code point; a proper prefix orders first.
pub open spec fn text_lt_from(a: Seq<char>, b: Seq<char>, i: int) -> bool
    decreases a.len() - i,
{
    if i >= a.len() {
        i < b.len()
    } else if i >= b.len() {
        false
    } else if a[i] != b[i] {
        a[i] < b[i]
    } else {
        text_lt_from(a, b, i + 1)
    }
}

/// The textual order of identifiers.
pub open spec fn text_lt(a: Seq<char>, b: Seq<char>) -> bool {
    text_lt_from(a, b, 0)
}

/// Each element orders strictly before every later one.
pub open spec fn strictly_sorted(s: Seq<Seq<char>>) -> bool {
    forall|i: int, j: int| 0 <= i < j < s.len() ==> text_lt(#[trigger] s[i], #[trigger] s[j])
}

pub proof fn lemma_text_lt_from_irreflexive(a: Seq<char>, i: int)
    requires
        0 <= i,
    ensures
        !text_lt_from(a, a, i),
    decreases a.len() - i,
{
    if i < a.len() {
        lemma_text_lt_from_irreflexive(a, i + 1);
    }
}

pub proof fn lemma_text_lt_from_asymmetric(a: Seq<char>, b: Seq<char>, i: int)
    requires
        0 <= i,
        text_lt_from(a, b, i),
    ensures
        !text_lt_from(b, a, i),
    decreases a.len() - i,
{
    if i < a.len() && i < b.len() && a[i] == b[i] {
        lemma_text_lt_from_asymmetric(a, b, i + 1);
    }
}

pub proof fn lemma_text_lt_from_total(a: Seq<char>, b: Seq<char>, i: int)
    requires
        0 <= i <= a.len(),
        i <= b.len(),
        forall|j: int| 0 <= j < i ==> a[j] == b[j],
        !text_lt_from(a, b, i),
        !text_lt_from(b, a, i),
    ensures
        a == b,
    decreases a.len() - i,
{
    if i >= a.len() {
        assert(a =~= b);
    } else if i >= b.len() {
    } else if a[i] != b[i] {
    } else {
        lemma_text_lt_from_total(a, b, i + 1);
    }
}

pub proof fn lemma_text_lt_from_transitive(a: Seq<char>, b: Seq<char>, c: Seq<char>, i: int)
    requires
        0 <= i,
        text_lt_from(a, b, i),
        text_lt_from(b, c, i),
    ensures
        text_lt_from(a, c, i),
    decreases a.len() - i,
{
    if i < a.len() && i < b.len() && i < c.len() && a[i] == b[i] && b[i] == c[i] {
        lemma_text_lt_from_transitive(a, b, c, i + 1);
    }
}

/// The textual order is a strict total order.
pub proof fn lemma_text_order(a: Seq<char>, b: Seq<char>, c: Seq<char>)
    ensures
        !text_lt(a, a),
        text_lt(a, b) ==> !text_lt(b, a),
        text_lt(a, b) && text_lt(b, c) ==> text_lt(a, c),
        a != b ==> text_lt(a, b) || text_lt(b, a),
{
    lemma_text_lt_from_irreflexive(a, 0);
    if text_lt(a, b) {
        lemma_text_lt_from_asymmetric(a, b, 0);
    }
    if text_lt(a, b) && text_lt(b, c) {
        lemma_text_lt_from_transitive(a, b, c, 0);
    }
    if !text_lt(a, b) && !text_lt(b, a) {
        lemma_text_lt_from_total(a, b, 0);
    }
}

pub proof fn lemma_insert_to_set<A>(s: Seq<A>, p: int, x: A)
    requires
        0 <= p <= s.len(),
    ensures
        s.insert(p, x).to_set() == s.to_set().insert(x),
{
    assert forall|e: A| #[trigger]
        s.insert(p, x).to_set().contains(e) <==> s.to_set().insert(x).contains(e) by {
        if s.insert(p, x).to_set().contains(e) && e != x {
            let k = choose|k: int| 0 <= k < s.len() + 1 && s.insert(p, x)[k] == e;
            if k < p {
                assert(s[k] == e);
            } else {
                assert(s[k - 1] == e);
            }
        }
        if s.to_set().contains(e) && e != x {
            let k = choose|k: int| 0 <= k < s.len() && s[k] == e;
            if k < p {
                assert(s.insert(p, x)[k] == e);
            } else {
                assert(s.insert(p, x)[k + 1] == e);
            }
        }
        if e == x {
            assert(s.insert(p, x)[p] == x);
        }
    }
    assert(s.insert(p, x).to_set() =~= s.to_set().insert(x));
}

/// Compares two identifiers by their text.
pub fn text_less(a: &str, b: &str) -> (r: bool)
    ensures
        r == text_lt(a@, b@),
{
    let la = a.unicode_len();
    let lb = b.unicode_len();
    let mut i: usize = 0;
    while i < la && i < lb
        invariant
            la == a@.len(),
            lb == b@.len(),
            0 <= i <= la,
            i <= lb,
            text_lt(a@, b@) == text_lt_from(a@, b@, i as int),
        decreases la - i,
    {
        let ca = a.get_char(i);
        let cb = b.get_char(i);
        if ca != cb {
            return ca < cb;
        }
        i = i + 1;
    }
    i >= la && i < lb
}

/// Where the identifier `m` stands in `v`, if it does.
pub fn position_of(v: &Vec<String>, m: &String) -> (r: Option<usize>)
    ensures
        match r {
            Some(i) => i < v@.len() && v@[i as int]@ == m@,
            None => !ids(v@).contains(m@),
        },
{
    let mut i: usize = 0;
    while i < v.len()
        invariant
            0 <= i <= v@.len(),
            forall|j: int| 0 <= j < i ==> v@[j]@ != m@,
        decreases v@.len() - i,
    {
        if v[i] == *m {
            return Some(i);
        }
        i = i + 1;
    }
    proof {
        if ids(v@).contains(m@) {
            let j = choose|j: int| 0 <= j < ids(v@).len() && ids(v@)[j] == m@;
            assert(v@[j]@ == m@);
        }
    }
    None
}

/// Whether `v` holds the identifier `m`.
pub fn contains_identifier(v: &Vec<String>, m: &String) -> (r: bool)
    ensures
        r == ids(v@).contains(m@),
{
    match position_of(v, m) {
        Some(i) => {
            assert(ids(v@)[i as int] == m@);
            true
        },
        None => false,
    }
}

/// Sorts distinct identifiers by their text.
pub fn sort_identifiers(v: &Vec<String>) -> (r: Vec<String>)
    requires
        ids(v@).no_duplicates(),
    ensures
        ids(r@).to_set() == ids(v@).to_set(),
        ids(r@).no_duplicates(),
        r@.len() == v@.len(),
        strictly_sorted(ids(r@)),
{
    let mut r: Vec<String> = Vec::new();
    let mut i: usize = 0;
    while i < v.len()
        invariant
            0 <= i <= v@.len(),
            ids(v@).no_duplicates(),
            ids(r@).to_set() == ids(v@.subrange(0, i as int)).to_set(),
            ids(r@).no_duplicates(),
            r@.len() == i,
            strictly_sorted(ids(r@)),
        decreases v@.len() - i,
    {
        let x = v[i].clone();
        let mut p: usize = 0;
        while p < r.len() && !text_less(x.as_str(), r[p].as_str())
            invariant
                0 <= p <= r@.len(),
                forall|k: int| 0 <= k < p ==> !text_lt(x@, #[trigger] ids(r@)[k]),
            decreases r@.len() - p,
        {
            p = p + 1;
        }
        proof {
            assert(ids(v@.subrange(0, i + 1)) =~= ids(v@.subrange(0, i as int)).push(x@));
            ids(v@.subrange(0, i as int)).lemma_push_to_set_commute(x@);
            assert(!ids(r@).contains(x@)) by {
                if ids(r@).contains(x@) {
                    let k = choose|k: int| 0 <= k < ids(r@).len() && ids(r@)[k] == x@;
                    assert(ids(v@.subrange(0, i as int)).to_set().contains(x@));
                    let j = choose|j: int|
                        0 <= j < ids(v@.subrange(0, i as int)).len() && ids(
                            v@.subrange(0, i as int),
                        )[j] == x@;
                    assert(ids(v@)[j] == ids(v@)[i as int]);
                }
            }
        }
        let ghost old_r = ids(r@);
        r.insert(p, x);
        proof {
            assert(ids(r@) =~= old_r.insert(p as int, x@));
            assert forall|a: int, b: int| 0 <= a < b < ids(r@).len() implies text_lt(
                #[trigger] ids(r@)[a],
                #[trigger] ids(r@)[b],
            ) by {
                if a < p && b == p {
                    lemma_text_order(x@, old_r[a], x@);
                } else if a < p && b > p {
                    assert(ids(r@)[b] == old_r[b - 1]);
                } else if a == p && b > p {
                    assert(p < old_r.len());
                    assert(text_lt(x@, old_r[p as int]));
                    if b - 1 > p {
                        lemma_text_order(x@, old_r[p as int], old_r[b - 1]);
                    }
                } else if a > p {
                    assert(ids(r@)[a] == old_r[a - 1]);
                    assert(ids(r@)[b] == old_r[b - 1]);
                }
            }
            assert forall|a: int, b: int| 0 <= a < b < ids(r@).len() implies ids(r@)[a]
                != ids(r@)[b] by {
                lemma_text_order(ids(r@)[a], ids(r@)[b], ids(r@)[b]);
            }
            lemma_insert_to_set(old_r, p as int, x@);
        }
        i = i + 1;
    }
    assert(v@.subrange(0, v@.len() as int) =~= v@);
    r
}

/// A copy of a list of identifiers.
pub fn copy_identifiers(v: &Vec<String>) -> (r: Vec<String>)
    ensures
        ids(r@) == ids(v@),
{
    let mut r: Vec<String> = Vec::new();
    let mut i: usize = 0;
    while i < v.len()
        invariant
            0 <= i <= v@.len(),
            r@.len() == i,
            forall|k: int| 0 <= k < i ==> (#[trigger] r@[k])@ == v@[k]@,
        decreases v@.len() - i,
    {
        r.push(v[i].clone());
        i = i + 1;
    }
    assert(ids(r@) =~= ids(v@));
    r
}

/// Two sequences in strict textual order with the same elements are equal.
pub proof fn lemma_sorted_sets_equal(a: Seq<Seq<char>>, b: Seq<Seq<char>>)
    requires
        strictly_sorted(a),
        strictly_sorted(b),
        a.to_set() == b.to_set(),
    ensures
        a == b,
{
    lemma_strictly_sorted_no_duplicates(a);
    lemma_strictly_sorted_no_duplicates(b);
    a.unique_seq_to_set();
    b.unique_seq_to_set();
    lemma_sorted_prefix_equal(a, b, a.len() as int);
    assert(a =~= b);
}

pub proof fn lemma_strictly_sorted_no_duplicates(a: Seq<Seq<char>>)
    requires
        strictly_sorted(a),
    ensures
        a.no_duplicates(),
{
    assert forall|i: int, j: int| 0 <= i < a.len() && 0 <= j < a.len() && i != j implies a[i] != a[j] by {
        lemma_text_order(a[i], a[j], a[j]);
        if i < j {
            assert(text_lt(a[i], a[j]));
        } else {
            assert(text_lt(a[j], a[i]));
            lemma_text_order(a[j], a[i], a[i]);
        }
    }
}

proof fn lemma_sorted_prefix_equal(a: Seq<Seq<char>>, b: Seq<Seq<char>>, i: int)
    requires
        strictly_sorted(a),
        strictly_sorted(b),
        a.to_set() == b.to_set(),
        a.len() == b.len(),
        0 <= i <= a.len(),
    ensures
        forall|k: int| 0 <= k < i ==> a[k] == b[k],
    decreases i,
{
    if i > 0 {
        lemma_sorted_prefix_equal(a, b, i - 1);
        let k = i - 1;
        assert(b.to_set().contains(a[k]));
        let j = choose|j: int| 0 <= j < b.len() && b[j] == a[k];
        assert(a.to_set().contains(b[k]));
        let jj = choose|jj: int| 0 <= jj < a.len() && a[jj] == b[k];
        if j < k {
            assert(a[j] == b[j]);
            lemma_text_order(a[j], a[k], a[k]);
        }
        if jj < k {
            assert(a[jj] == b[jj]);
            lemma_text_order(b[jj], b[k], b[k]);
        }
        if j > k {
            assert(text_lt(b[k], b[j]));
            if jj > k {
                assert(text_lt(a[k], a[jj]));
                lemma_text_order(b[k], a[k], b[k]);
            } else {
                lemma_text_order(b[k], a[k], a[k]);
            }
        }
    }
}

/// Adds `m` to the set `v`.
pub fn insert_identifier(v: &mut Vec<String>, m: String)
    requires
        ids(old(v)@).no_duplicates(),
    ensures
        ids(final(v)@).no_duplicates(),
        ids(final(v)@).to_set() == ids(old(v)@).to_set().insert(m@),
{
    if contains_identifier(v, &m) {
        assert(ids(v@).to_set().insert(m@) =~= ids(v@).to_set());
    } else {
        proof {
            crate::ukey_set::lemma_push_no_duplicates(ids(v@), m@);
            assert(ids(v@.push(m)) =~= ids(v@).push(m@));
        }
        v.push(m);
    }
}

/// Takes `m` out of the set `v`.
pub fn remove_identifier(v: &mut Vec<String>, m: &String)
    requires
        ids(old(v)@).no_duplicates(),
    ensures
        ids(final(v)@).no_duplicates(),
        ids(final(v)@).to_set() == ids(old(v)@).to_set().remove(m@),
{
    match position_of(v, m) {
        Some(i) => {
            proof {
                crate::ukey_set::lemma_remove_index_to_set(ids(v@), i as int);
                assert(ids(v@.remove(i as int)) =~= ids(v@).remove(i as int));
            }
            v.remove(i);
        },
        None => {
            assert(ids(v@).to_set().remove(m@) =~= ids(v@).to_set());
        },
    }
}

} // verus!
