//! Searching a range of indices for the first or the last position that has a
//! given property.

use vstd::prelude::*;

verus! {

/// The least index in `[from, to)` at which `hit` holds, and `to` where it
/// holds at none of them.
pub open spec fn first_index(hit: spec_fn(int) -> bool, from: int, to: int) -> int
    decreases to - from,
{
    if from >= to {
        to
    } else if hit(from) {
        from
    } else {
        first_index(hit, from + 1, to)
    }
}

/// The greatest index in `[from, to)` at which `hit` holds, and `from - 1`
/// where it holds at none of them.
pub open spec fn last_index(hit: spec_fn(int) -> bool, from: int, to: int) -> int
    decreases to - from,
{
    if from >= to {
        from - 1
    } else if hit(to - 1) {
        to - 1
    } else {
        last_index(hit, from, to - 1)
    }
}

/// `first_index` lies in `[from, to]`, `hit` holds at it unless it is `to`,
/// and `hit` holds nowhere before it.
pub proof fn lemma_first_index(hit: spec_fn(int) -> bool, from: int, to: int)
    requires
        from <= to,
    ensures
        from <= first_index(hit, from, to) <= to,
        first_index(hit, from, to) < to ==> hit(first_index(hit, from, to)),
        forall|j: int| from <= j < first_index(hit, from, to) ==> !#[trigger] hit(j),
    decreases to - from,
{
    if from < to && !hit(from) {
        lemma_first_index(hit, from + 1, to);
    }
}

/// An index with the three properties of `lemma_first_index` is `first_index`.
pub proof fn lemma_first_index_is(hit: spec_fn(int) -> bool, from: int, to: int, r: int)
    requires
        from <= r <= to,
        r < to ==> hit(r),
        forall|j: int| from <= j < r ==> !#[trigger] hit(j),
    ensures
        first_index(hit, from, to) == r,
    decreases to - from,
{
    if from < r {
        assert(!hit(from));
        lemma_first_index_is(hit, from + 1, to, r);
    }
}

/// `last_index` lies in `[from - 1, to)`, `hit` holds at it unless it is
/// `from - 1`, and `hit` holds nowhere after it.
pub proof fn lemma_last_index(hit: spec_fn(int) -> bool, from: int, to: int)
    requires
        from <= to,
    ensures
        from - 1 <= last_index(hit, from, to) < to,
        last_index(hit, from, to) >= from ==> hit(last_index(hit, from, to)),
        forall|j: int| last_index(hit, from, to) < j < to ==> !#[trigger] hit(j),
    decreases to - from,
{
    if from < to && !hit(to - 1) {
        lemma_last_index(hit, from, to - 1);
    }
}

/// An index with the three properties of `lemma_last_index` is `last_index`.
pub proof fn lemma_last_index_is(hit: spec_fn(int) -> bool, from: int, to: int, r: int)
    requires
        from - 1 <= r < to,
        r >= from ==> hit(r),
        forall|j: int| r < j < to ==> !#[trigger] hit(j),
    ensures
        last_index(hit, from, to) == r,
    decreases to - from,
{
    if r < to - 1 {
        assert(!hit(to - 1));
        lemma_last_index_is(hit, from, to - 1, r);
    }
}

/// `s[i] == c`, as a property of the index `i`.
pub open spec fn char_at(s: Seq<char>, c: char) -> spec_fn(int) -> bool {
    |i: int| 0 <= i < s.len() && s[i] == c
}

/// `pattern` stands in `s` at index `i`.
pub open spec fn occurs_at(s: Seq<char>, pattern: Seq<char>) -> spec_fn(int) -> bool {
    |i: int| 0 <= i && i + pattern.len() <= s.len() && s.subrange(i, i + pattern.len()) == pattern
}

/// The first index in `[from, to)` that holds `c`, or `to`.
pub(crate) fn find_char(v: &Vec<char>, c: char, from: usize, to: usize) -> (r: usize)
    requires
        from <= to <= v.len(),
    ensures
        r == first_index(char_at(v@, c), from as int, to as int),
        from <= r <= to,
{
    let mut i: usize = from;
    while i < to && v[i] != c
        invariant
            from <= i <= to <= v.len(),
            forall|j: int| from <= j < i ==> !#[trigger] char_at(v@, c)(j),
        decreases to - i,
    {
        i = i + 1;
    }
    proof {
        lemma_first_index_is(char_at(v@, c), from as int, to as int, i as int);
    }
    i
}

/// The last index in `[from, to)` that holds `c`, if there is one.
pub(crate) fn rfind_char(v: &Vec<char>, c: char, from: usize, to: usize) -> (r: Option<usize>)
    requires
        from <= to <= v.len(),
    ensures
        match r {
            Some(i) => i == last_index(char_at(v@, c), from as int, to as int) && from <= i < to,
            None => last_index(char_at(v@, c), from as int, to as int) == from - 1,
        },
{
    let mut i: usize = to;
    while i > from && v[i - 1] != c
        invariant
            from <= i <= to <= v.len(),
            forall|j: int| i <= j < to ==> !#[trigger] char_at(v@, c)(j),
        decreases i,
    {
        i = i - 1;
    }
    proof {
        lemma_last_index_is(char_at(v@, c), from as int, to as int, i - 1);
    }
    if i > from {
        Some(i - 1)
    } else {
        None
    }
}

/// Whether `pattern` stands in `v` at index `i`.
pub(crate) fn matches_at(v: &Vec<char>, pattern: &Vec<char>, i: usize) -> (r: bool)
    requires
        i <= v.len(),
    ensures
        r == occurs_at(v@, pattern@)(i as int),
{
    if pattern.len() > v.len() - i {
        return false;
    }
    let mut k: usize = 0;
    while k < pattern.len()
        invariant
            i + pattern.len() <= v.len(),
            k <= pattern.len(),
            v@.subrange(i as int, i + k) == pattern@.take(k as int),
        decreases pattern.len() - k,
    {
        if v[i + k] != pattern[k] {
            proof {
                let whole = v@.subrange(i as int, i + pattern.len());
                assert(whole[k as int] != pattern@[k as int]);
            }
            return false;
        }
        proof {
            let next = v@.subrange(i as int, i + k + 1);
            assert(next.drop_last() == v@.subrange(i as int, i + k));
            assert(pattern@.take(k + 1).drop_last() == pattern@.take(k as int));
            assert(next == pattern@.take(k + 1));
        }
        k = k + 1;
    }
    assert(pattern@.take(pattern.len() as int) == pattern@);
    true
}

/// The first index at or after `from` at which `pattern` stands in `v`, or
/// `v.len()`.
pub(crate) fn find_pattern(v: &Vec<char>, pattern: &Vec<char>, from: usize) -> (r: usize)
    requires
        from <= v.len(),
    ensures
        r == first_index(occurs_at(v@, pattern@), from as int, v.len() as int),
        from <= r <= v.len(),
{
    let mut i: usize = from;
    while i < v.len() && !matches_at(v, pattern, i)
        invariant
            from <= i <= v.len(),
            forall|j: int| from <= j < i ==> !#[trigger] occurs_at(v@, pattern@)(j),
        decreases v.len() - i,
    {
        i = i + 1;
    }
    proof {
        lemma_first_index_is(occurs_at(v@, pattern@), from as int, v.len() as int, i as int);
    }
    i
}

} // verus!
