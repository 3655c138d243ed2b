//! Name-to-names relations held in a `MultiMap`, their mathematical model,
//! and walks over them.
use vstd::prelude::*;
use multimap::MultiMap;

verus! {

#[verifier::external_type_specification]
#[verifier::external_body]
#[verifier::reject_recursive_types(K)]
#[verifier::reject_recursive_types(V)]
#[verifier::reject_recursive_types(S)]
pub struct ExMultiMap<K, V, S>(MultiMap<K, V, S>);

/// What a relation holds: each key with its values, in insertion order.
pub uninterp spec fn multimap_entries(m: MultiMap<String, String>) -> Map<Seq<char>, Seq<Seq<char>>>;

pub type Relation = Map<Seq<char>, Seq<Seq<char>>>;

/// A relation from course names to course names.
pub type NameMultiMap = MultiMap<String, String>;

/// The names a string list holds.
pub open spec fn names(v: Seq<String>) -> Seq<Seq<char>> {
    v.map_values(|s: String| s@)
}

/// The values of `k`, or none when `k` is not a key.
pub open spec fn values_of(rel: Relation, k: Seq<char>) -> Seq<Seq<char>> {
    if rel.contains_key(k) {
        rel[k]
    } else {
        Seq::empty()
    }
}

/// `rel` with `v` appended to the values of `k`.
pub open spec fn with_value(rel: Relation, k: Seq<char>, v: Seq<char>) -> Relation {
    rel.insert(k, values_of(rel, k).push(v))
}

pub open spec fn linked(rel: Relation, a: Seq<char>, b: Seq<char>) -> bool {
    values_of(rel, a).contains(b)
}

/// A walk of one or more steps along the relation.
pub open spec fn is_walk(rel: Relation, w: Seq<Seq<char>>) -> bool {
    &&& w.len() >= 2
    &&& forall|i: int| 0 <= i < w.len() - 1 ==> linked(rel, #[trigger] w[i], w[i + 1])
}

/// `b` can be reached from `a` in one or more steps.
pub open spec fn reaches(rel: Relation, a: Seq<char>, b: Seq<char>) -> bool {
    exists|w: Seq<Seq<char>>| is_walk(rel, w) && w[0] == a && #[trigger] w.last() == b
}

/// Everything reachable from `a` in one or more steps.
pub open spec fn reach_set(rel: Relation, a: Seq<char>) -> Set<Seq<char>> {
    Set::new(|b: Seq<char>| reaches(rel, a, b))
}

pub open spec fn occurrences(s: Seq<Seq<char>>, x: Seq<char>) -> nat
    decreases s.len(),
{
    if s.len() == 0 {
        0
    } else {
        occurrences(s.drop_last(), x) + if s.last() == x { 1nat } else { 0nat }
    }
}

/// Every link `a -> b` between distinct names is matched, as often, by `b -> a`.
pub open spec fn symmetric(rel: Relation) -> bool {
    forall|a: Seq<char>, b: Seq<char>|
        a != b ==> occurrences(#[trigger] values_of(rel, a), b) == occurrences(
            #[trigger] values_of(rel, b),
            a,
        )
}

pub proof fn lemma_linked_reaches(rel: Relation, a: Seq<char>, b: Seq<char>)
    requires
        linked(rel, a, b),
    ensures
        reaches(rel, a, b),
{
    let w = seq![a, b];
    assert(w.last() == b);
    assert(is_walk(rel, w));
}

pub proof fn lemma_reaches_extend(rel: Relation, a: Seq<char>, x: Seq<char>, b: Seq<char>)
    requires
        reaches(rel, a, x),
        linked(rel, x, b),
    ensures
        reaches(rel, a, b),
{
    let w = choose|w: Seq<Seq<char>>| is_walk(rel, w) && w[0] == a && #[trigger] w.last() == x;
    let w2 = w.push(b);
    assert forall|i: int| 0 <= i < w2.len() - 1 implies linked(rel, #[trigger] w2[i], w2[i + 1]) by {
        if i < w.len() - 1 {
            assert(w2[i] == w[i] && w2[i + 1] == w[i + 1]);
        } else {
            assert(w2[i] == x);
        }
    }
    assert(w2.last() == b);
}

pub proof fn lemma_linked_symmetric(rel: Relation, a: Seq<char>, b: Seq<char>)
    requires
        symmetric(rel),
        linked(rel, a, b),
    ensures
        linked(rel, b, a),
{
    if a != b {
        lemma_occurrences_contains(values_of(rel, a), b);
        lemma_occurrences_contains(values_of(rel, b), a);
    }
}

/// In a symmetric relation, reachability goes both ways.
pub proof fn lemma_reaches_symmetric(rel: Relation, a: Seq<char>, b: Seq<char>)
    requires
        symmetric(rel),
        reaches(rel, a, b),
    ensures
        reaches(rel, b, a),
{
    let w = choose|w: Seq<Seq<char>>| is_walk(rel, w) && w[0] == a && #[trigger] w.last() == b;
    let n = w.len();
    let r = Seq::new(n, |i: int| w[n - 1 - i]);
    assert forall|i: int| 0 <= i < r.len() - 1 implies linked(rel, #[trigger] r[i], r[i + 1]) by {
        assert(linked(rel, w[n - 2 - i], w[n - 2 - i + 1]));
        lemma_linked_symmetric(rel, w[n - 2 - i], w[n - 1 - i]);
    }
    assert(r.last() == a);
}

pub proof fn lemma_reaches_trans(rel: Relation, a: Seq<char>, b: Seq<char>, c: Seq<char>)
    requires
        reaches(rel, a, b),
        reaches(rel, b, c),
    ensures
        reaches(rel, a, c),
{
    let w1 = choose|w: Seq<Seq<char>>| is_walk(rel, w) && w[0] == a && #[trigger] w.last() == b;
    let w2 = choose|w: Seq<Seq<char>>| is_walk(rel, w) && w[0] == b && #[trigger] w.last() == c;
    let w = w1 + w2.drop_first();
    assert forall|i: int| 0 <= i < w.len() - 1 implies linked(rel, #[trigger] w[i], w[i + 1]) by {
        if i < w1.len() - 1 {
            assert(w[i] == w1[i] && w[i + 1] == w1[i + 1]);
        } else {
            let j = i - w1.len() + 1;
            assert(w[i] == w2[j]);
            assert(w[i + 1] == w2[j + 1]);
        }
    }
    assert(w.last() == c);
}

pub proof fn lemma_occurrences_push(s: Seq<Seq<char>>, v: Seq<char>, x: Seq<char>)
    ensures
        occurrences(s.push(v), x) == occurrences(s, x) + if v == x { 1nat } else { 0nat },
{
    assert(s.push(v).drop_last() =~= s);
}

pub proof fn lemma_occurrences_contains(s: Seq<Seq<char>>, x: Seq<char>)
    ensures
        s.contains(x) <==> occurrences(s, x) > 0,
    decreases s.len(),
{
    if s.len() > 0 {
        lemma_occurrences_contains(s.drop_last(), x);
        if s.drop_last().contains(x) {
            let i = choose|i: int| 0 <= i < s.drop_last().len() && s.drop_last()[i] == x;
            assert(s[i] == x);
        }
        if s.contains(x) && s.last() != x {
            let i = choose|i: int| 0 <= i < s.len() && s[i] == x;
            assert(s.drop_last()[i] == x);
        }
    }
}

pub proof fn lemma_occurrences_remove(s: Seq<Seq<char>>, i: int, x: Seq<char>)
    requires
        0 <= i < s.len(),
    ensures
        occurrences(s.remove(i), x) + if s[i] == x { 1nat } else { 0nat } == occurrences(s, x),
    decreases s.len(),
{
    if i == s.len() - 1 {
        assert(s.remove(i) =~= s.drop_last());
    } else {
        lemma_occurrences_remove(s.drop_last(), i, x);
        assert(s.remove(i) =~= s.drop_last().remove(i).push(s.last()));
        lemma_occurrences_push(s.drop_last().remove(i), s.last(), x);
    }
}

/// `s` without the first occurrence of `x`; `s` itself when there is none.
pub open spec fn without_first(s: Seq<Seq<char>>, x: Seq<char>) -> Seq<Seq<char>>
    decreases s.len(),
{
    if s.len() == 0 {
        s
    } else if s[0] == x {
        s.drop_first()
    } else {
        seq![s[0]] + without_first(s.drop_first(), x)
    }
}

/// `rel` with the first occurrence of `v` taken out of the values of `k`.
pub open spec fn without_value(rel: Relation, k: Seq<char>, v: Seq<char>) -> Relation {
    if values_of(rel, k).contains(v) {
        rel.insert(k, without_first(rel[k], v))
    } else {
        rel
    }
}

pub proof fn lemma_without_first(s: Seq<Seq<char>>, x: Seq<char>, i: int)
    requires
        0 <= i < s.len(),
        s[i] == x,
        forall|j: int| 0 <= j < i ==> s[j] != x,
    ensures
        without_first(s, x) == s.remove(i),
    decreases s.len(),
{
    if i == 0 {
        assert(s.drop_first() =~= s.remove(0));
    } else {
        lemma_without_first(s.drop_first(), x, i - 1);
        assert(seq![s[0]] + s.drop_first().remove(i - 1) =~= s.remove(i));
    }
}

pub proof fn lemma_without_absent(s: Seq<Seq<char>>, x: Seq<char>)
    requires
        !s.contains(x),
    ensures
        without_first(s, x) == s,
    decreases s.len(),
{
    if s.len() > 0 {
        assert(!s.drop_first().contains(x)) by {
            if s.drop_first().contains(x) {
                let k = choose|k: int| 0 <= k < s.drop_first().len() && s.drop_first()[k] == x;
                assert(s[k + 1] == x);
            }
        }
        lemma_without_absent(s.drop_first(), x);
        assert(seq![s[0]] + s.drop_first() =~= s);
    }
}

/// Relies on `MultiMap::new`: the new map holds no key.
#[verifier::external_body]
pub(crate) fn relation_new() -> (r: NameMultiMap)
    ensures
        multimap_entries(r) == Relation::empty(),
{
    MultiMap::new()
}

/// Relies on `MultiMap::insert`: `v` is appended to the values of `k`; a key
/// that was absent is created with `v` alone.
#[verifier::external_body]
pub(crate) fn relation_insert(m: &mut NameMultiMap, k: String, v: String)
    ensures
        multimap_entries(*final(m)) == with_value(multimap_entries(*old(m)), k@, v@),
{
    m.insert(k, v)
}

/// Relies on `MultiMap::get_vec`: a copy of the values of `k`, if `k` is a key.
#[verifier::external_body]
pub(crate) fn relation_get(m: &NameMultiMap, k: &String) -> (r: Option<Vec<String>>)
    ensures
        r.is_some() == multimap_entries(*m).contains_key(k@),
        r.is_some() ==> names(r.unwrap()@) == multimap_entries(*m)[k@],
{
    m.get_vec(k).cloned()
}

/// Relies on `MultiMap::contains_key`.
#[verifier::external_body]
pub(crate) fn relation_contains_key(m: &NameMultiMap, k: &String) -> (r: bool)
    ensures
        r == multimap_entries(*m).contains_key(k@),
{
    m.contains_key(k)
}

/// Relies on `MultiMap::get_vec_mut`: takes out the value at position `i` of
/// the values of `k`, keeping the order of the others.
#[verifier::external_body]
pub(crate) fn relation_remove_at(m: &mut NameMultiMap, k: &String, i: usize) -> (r: String)
    requires
        multimap_entries(*old(m)).contains_key(k@),
        i < multimap_entries(*old(m))[k@].len(),
    ensures
        r@ == multimap_entries(*old(m))[k@][i as int],
        multimap_entries(*final(m)) == multimap_entries(*old(m)).insert(
            k@,
            multimap_entries(*old(m))[k@].remove(i as int),
        ),
{
    m.get_vec_mut(k).unwrap().remove(i)
}

/// Position of the first occurrence of `x` in `v`.
pub fn position_of(v: &Vec<String>, x: &String) -> (r: Option<usize>)
    ensures
        r.is_none() == !names(v@).contains(x@),
        r.is_some() ==> r.unwrap() < v@.len() && names(v@)[r.unwrap() as int] == x@ && forall|j: int|
            0 <= j < r.unwrap() ==> #[trigger] names(v@)[j] != x@,
{
    let mut i: usize = 0;
    while i < v.len()
        invariant
            0 <= i <= v.len(),
            forall|j: int| 0 <= j < i ==> #[trigger] names(v@)[j] != x@,
        decreases v.len() - i,
    {
        assert(names(v@)[i as int] == v@[i as int]@);
        if v[i] == *x {
            return Some(i);
        }
        i = i + 1;
    }
    proof {
        lemma_absent_name(v, x);
    }
    None
}

proof fn lemma_absent_name(v: &Vec<String>, x: &String)
    requires
        forall|j: int| 0 <= j < v@.len() ==> #[trigger] names(v@)[j] != x@,
    ensures
        !names(v@).contains(x@),
{
    if names(v@).contains(x@) {
        let k = choose|k: int| 0 <= k < names(v@).len() && names(v@)[k] == x@;
    }
}

/// Whether the first `upto` names of `v` hold `x`.
pub fn contains_name_before(v: &Vec<String>, x: &String, upto: usize) -> (r: bool)
    requires
        upto <= v@.len(),
    ensures
        r == names(v@).take(upto as int).contains(x@),
{
    let mut i: usize = 0;
    while i < upto
        invariant
            0 <= i <= upto,
            upto <= v@.len(),
            forall|j: int| 0 <= j < i ==> #[trigger] names(v@)[j] != x@,
        decreases upto - i,
    {
        if v[i] == *x {
            assert(names(v@).take(upto as int)[i as int] == x@);
            return true;
        }
        i = i + 1;
    }
    assert(!names(v@).take(upto as int).contains(x@)) by {
        if names(v@).take(upto as int).contains(x@) {
            let k = choose|k: int| 0 <= k < upto && names(v@).take(upto as int)[k] == x@;
            assert(names(v@)[k] == x@);
        }
    }
    false
}

/// Whether `v` holds the name `x`.
pub fn contains_name(v: &Vec<String>, x: &String) -> (r: bool)
    ensures
        r == names(v@).contains(x@),
{
    let mut i: usize = 0;
    while i < v.len()
        invariant
            0 <= i <= v.len(),
            forall|j: int| 0 <= j < i ==> #[trigger] names(v@)[j] != x@,
        decreases v.len() - i,
    {
        if v[i] == *x {
            assert(names(v@)[i as int] == x@);
            return true;
        }
        i = i + 1;
    }
    false
}

} // verus!
