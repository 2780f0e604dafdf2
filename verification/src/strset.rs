//! Sets of strings, kept as sorted lists without repetition.
use vstd::prelude::*;
use crate::text::{before, lemma_index_in, position, same, text_before, views};

verus! {

/// `list` with `s` at its place, or as it is where `s` is in it.
pub open spec fn inserted(list: Seq<Seq<char>>, s: Seq<char>) -> Seq<Seq<char>>
    decreases list.len(),
{
    if list.len() == 0 {
        seq![s]
    } else if list.last() == s {
        list
    } else if before(list.last(), s) {
        list.push(s)
    } else {
        inserted(list.drop_last(), s).push(list.last())
    }
}

/// The first `k` strings as a set.
pub open spec fn set_of(list: Seq<Seq<char>>, k: nat) -> Seq<Seq<char>>
    decreases k,
{
    if k == 0 {
        Seq::empty()
    } else {
        inserted(set_of(list, (k - 1) as nat), list[k - 1])
    }
}

/// Whether the strings stand in their order, each once.
pub open spec fn is_sorted(list: Seq<Seq<char>>) -> bool {
    forall|i: int, j: int| 0 <= i < j < list.len() ==> before(#[trigger] list[i], #[trigger] list[j])
}

/// The strings among the first `k` of `a` that are not in `b`.
pub open spec fn missing(a: Seq<Seq<char>>, b: Seq<Seq<char>>, k: nat) -> Seq<Seq<char>>
    decreases k,
{
    if k == 0 {
        Seq::empty()
    } else if b.contains(a[k - 1]) {
        missing(a, b, (k - 1) as nat)
    } else {
        missing(a, b, (k - 1) as nat).push(a[k - 1])
    }
}

proof fn lemma_before_irreflexive(a: Seq<char>)
    ensures
        !before(a, a),
    decreases a.len(),
{
    if a.len() > 0 {
        lemma_before_irreflexive(a.skip(1));
    }
}

pub proof fn lemma_before_total(a: Seq<char>, b: Seq<char>)
    ensures
        !before(a, a),
        a == b || before(a, b) || before(b, a),
        !(before(a, b) && before(b, a)),
    decreases a.len() + b.len(),
{
    lemma_before_irreflexive(a);
    if a.len() > 0 && b.len() > 0 {
        lemma_before_total(a.skip(1), b.skip(1));
        if a[0] == b[0] && a.skip(1) == b.skip(1) {
            assert(a =~= seq![a[0]] + a.skip(1));
            assert(b =~= seq![b[0]] + b.skip(1));
        }
    } else if a.len() == 0 && b.len() == 0 {
        assert(a =~= b);
    }
}

pub proof fn lemma_before_transitive(a: Seq<char>, b: Seq<char>, c: Seq<char>)
    requires
        before(a, b),
        before(b, c),
    ensures
        before(a, c),
    decreases a.len() + b.len() + c.len(),
{
    if a.len() > 0 && a[0] == b[0] && b[0] == c[0] {
        lemma_before_transitive(a.skip(1), b.skip(1), c.skip(1));
    }
}

proof fn lemma_inserted(list: Seq<Seq<char>>, s: Seq<char>)
    requires
        is_sorted(list),
    ensures
        is_sorted(inserted(list, s)),
        forall|x: Seq<char>| #[trigger] inserted(list, s).contains(x) <==> list.contains(x) || x == s,
        list.len() <= inserted(list, s).len() <= list.len() + 1,
        inserted(list, s).len() > 0,
    decreases list.len(),
{
    let r = inserted(list, s);
    if list.len() == 0 {
        assert(r[0] == s);
    } else if list.last() == s {
        assert(list.contains(s));
    } else if before(list.last(), s) {
        assert forall|i: int, j: int| 0 <= i < j < r.len() implies before(
            #[trigger] r[i],
            #[trigger] r[j],
        ) by {
            if j == r.len() - 1 && i < list.len() - 1 {
                lemma_before_transitive(list[i], list.last(), s);
            }
        }
        assert forall|x: Seq<char>| #[trigger] r.contains(x) <==> list.contains(x) || x == s by {
            if list.contains(x) {
                let i = choose|i: int| 0 <= i < list.len() && list[i] == x;
                assert(r[i] == x);
            }
            if x == s {
                assert(r[r.len() - 1] == x);
            }
            if r.contains(x) {
                let i = choose|i: int| 0 <= i < r.len() && r[i] == x;
                if i < list.len() {
                    assert(list[i] == x);
                }
            }
        }
    } else {
        let front = list.drop_last();
        let last = list.last();
        lemma_before_total(last, s);
        lemma_inserted(front, s);
        let q = inserted(front, s);
        assert forall|i: int, j: int| 0 <= i < j < r.len() implies before(
            #[trigger] r[i],
            #[trigger] r[j],
        ) by {
            if j == r.len() - 1 {
                assert(q.contains(q[i]));
                if q[i] != s {
                    let k = choose|k: int| 0 <= k < front.len() && front[k] == q[i];
                    assert(before(list[k], list[list.len() - 1]));
                }
            } else {
                assert(before(q[i], q[j]));
            }
        }
        assert forall|x: Seq<char>| #[trigger] r.contains(x) <==> list.contains(x) || x == s by {
            if r.contains(x) {
                let i = choose|i: int| 0 <= i < r.len() && r[i] == x;
                if i < q.len() {
                    assert(q[i] == x);
                    assert(q.contains(x));
                    if x != s {
                        let k = choose|k: int| 0 <= k < front.len() && front[k] == x;
                        assert(list[k] == x);
                    }
                } else {
                    assert(list[list.len() - 1] == x);
                }
            }
            if list.contains(x) {
                let i = choose|i: int| 0 <= i < list.len() && list[i] == x;
                if i < front.len() {
                    assert(front[i] == x);
                    assert(q.contains(x));
                    let k = choose|k: int| 0 <= k < q.len() && q[k] == x;
                    assert(r[k] == x);
                } else {
                    assert(r[r.len() - 1] == x);
                }
            }
            if x == s {
                assert(q.contains(x));
                let k = choose|k: int| 0 <= k < q.len() && q[k] == x;
                assert(r[k] == x);
            }
        }
    }
}

/// A set holds the strings that it was made from and no others, sorted, each once.
pub proof fn law_set_of(list: Seq<Seq<char>>, k: nat)
    requires
        k <= list.len(),
    ensures
        is_sorted(set_of(list, k)),
        forall|x: Seq<char>| #[trigger] set_of(list, k).contains(x) <==> list.take(k as int).contains(x),
        set_of(list, k).len() <= k,
        k > 0 ==> set_of(list, k).len() > 0,
    decreases k,
{
    if k > 0 {
        law_set_of(list, (k - 1) as nat);
        let front = set_of(list, (k - 1) as nat);
        let s = list[k - 1];
        lemma_inserted(front, s);
        let all = list.take(k as int);
        let few = list.take(k - 1);
        assert forall|x: Seq<char>| #[trigger] set_of(list, k).contains(x) <==> all.contains(x) by {
            if all.contains(x) {
                let i = choose|i: int| 0 <= i < all.len() && all[i] == x;
                if i < k - 1 {
                    assert(few[i] == x);
                    assert(few.contains(x));
                }
            }
            if few.contains(x) {
                let i = choose|i: int| 0 <= i < few.len() && few[i] == x;
                assert(all[i] == x);
            }
            assert(all[k - 1] == s);
        }
    }
}

fn insert(list: &mut Vec<String>, s: &str)
    requires
        is_sorted(views(old(list)@)),
    ensures
        views(final(list)@) == inserted(views(old(list)@), s@),
{
    let ghost start = views(list@);
    let n: usize = list.len();
    let mut at: usize = n;
    proof {
        assert(start.take(n as int) =~= start);
        assert(inserted(start, s@) == inserted(start.take(n as int), s@) + start.skip(n as int));
    }
    while at > 0 && text_before(s, list[at - 1].as_str())
        invariant
            at <= n,
            n == list@.len(),
            start == views(list@),
            is_sorted(start),
            inserted(start, s@) == inserted(start.take(at as int), s@) + start.skip(at as int),
        decreases at,
    {
        proof {
            let front = start.take(at as int);
            lemma_before_total(s@, front.last());
            assert(front.last() == start[at - 1]);
            assert(front.drop_last() =~= start.take(at - 1));
            assert(inserted(front, s@) == inserted(front.drop_last(), s@).push(front.last()));
            assert(inserted(start.take(at - 1), s@) + start.skip(at - 1) =~= inserted(
                front,
                s@,
            ) + start.skip(at as int));
        }
        at = at - 1;
    }
    if at > 0 && same(s, list[at - 1].as_str()) {
        proof {
            let front = start.take(at as int);
            assert(front.last() == start[at - 1]);
            assert(start =~= front + start.skip(at as int));
        }
        return ;
    }
    proof {
        let front = start.take(at as int);
        if at > 0 {
            assert(front.last() == start[at - 1]);
            lemma_before_total(s@, front.last());
        }
        assert(inserted(front, s@) =~= front.push(s@));
    }
    list.insert(at, s.to_owned());
    proof {
        assert(views(list@) =~= start.take(at as int).push(s@) + start.skip(at as int));
    }
}

/// The strings of a list as a set.
pub fn to_set(list: &Vec<String>) -> (r: Vec<String>)
    ensures
        views(r@) == set_of(views(list@), list@.len()),
        r@.len() <= list@.len(),
{
    let mut out: Vec<String> = Vec::new();
    proof {
        assert(views(out@) =~= set_of(views(list@), 0));
    }
    let mut i: usize = 0;
    while i < list.len()
        invariant
            i <= list@.len(),
            views(out@) == set_of(views(list@), i as nat),
        decreases list@.len() - i,
    {
        proof {
            law_set_of(views(list@), i as nat);
        }
        insert(&mut out, list[i].as_str());
        i = i + 1;
    }
    proof {
        law_set_of(views(list@), list@.len());
        assert(views(out@).len() == out@.len());
    }
    out
}

/// The strings of one set that are not in the other.
pub fn difference(a: &Vec<String>, b: &Vec<String>) -> (r: Vec<String>)
    ensures
        views(r@) == missing(views(a@), views(b@), a@.len()),
{
    let mut out: Vec<String> = Vec::new();
    proof {
        assert(views(out@) =~= missing(views(a@), views(b@), 0));
    }
    let mut i: usize = 0;
    while i < a.len()
        invariant
            i <= a@.len(),
            views(out@) == missing(views(a@), views(b@), i as nat),
        decreases a@.len() - i,
    {
        proof {
            lemma_index_in(views(b@), a@[i as int]@);
            assert(views(a@)[i as int] == a@[i as int]@);
        }
        if position(b, a[i].as_str()).is_none() {
            let ghost given = views(out@);
            out.push(a[i].clone());
            proof {
                assert(views(out@) =~= given.push(a@[i as int]@));
            }
        } else {
            proof {
                assert(views(b@).contains(a@[i as int]@));
            }
        }
        i = i + 1;
    }
    out
}

/// Whether two lists are equal.
pub fn equal(a: &Vec<String>, b: &Vec<String>) -> (r: bool)
    ensures
        r == (views(a@) == views(b@)),
{
    if a.len() != b.len() {
        proof {
            assert(views(a@).len() != views(b@).len());
        }
        return false;
    }
    let mut i: usize = 0;
    while i < a.len()
        invariant
            a@.len() == b@.len(),
            i <= a@.len(),
            forall|k: int| 0 <= k < i ==> (#[trigger] a@[k])@ == b@[k]@,
        decreases a@.len() - i,
    {
        if !same(a[i].as_str(), b[i].as_str()) {
            proof {
                assert(views(a@)[i as int] != views(b@)[i as int]);
            }
            return false;
        }
        i = i + 1;
    }
    proof {
        assert(views(a@) =~= views(b@));
    }
    true
}

/// Two sets are equal where neither holds a string that the other does not.
pub proof fn law_equal_sets(a: Seq<Seq<char>>, b: Seq<Seq<char>>)
    requires
        is_sorted(a),
        is_sorted(b),
        missing(a, b, a.len()).len() == 0,
        missing(b, a, b.len()).len() == 0,
    ensures
        a == b,
{
    assert forall|i: int| 0 <= i < a.len() implies b.contains(#[trigger] a[i]) by {
        lemma_missing(a, b, a.len(), i);
    }
    assert forall|i: int| 0 <= i < b.len() implies a.contains(#[trigger] b[i]) by {
        lemma_missing(b, a, b.len(), i);
    }
    lemma_same_prefix(a, b, a.len());
    lemma_same_prefix(b, a, b.len());
    assert(a =~= b);
}

proof fn lemma_missing(a: Seq<Seq<char>>, b: Seq<Seq<char>>, k: nat, i: int)
    requires
        missing(a, b, k).len() == 0,
        0 <= i < k <= a.len(),
    ensures
        b.contains(a[i]),
    decreases k,
{
    if i < k - 1 {
        lemma_missing(a, b, (k - 1) as nat, i);
    }
}

proof fn lemma_same_prefix(a: Seq<Seq<char>>, b: Seq<Seq<char>>, k: nat)
    requires
        is_sorted(a),
        is_sorted(b),
        forall|i: int| 0 <= i < a.len() ==> b.contains(#[trigger] a[i]),
        forall|i: int| 0 <= i < b.len() ==> a.contains(#[trigger] b[i]),
        k <= a.len(),
    ensures
        k <= b.len(),
        forall|i: int| 0 <= i < k ==> a[i] == b[i],
    decreases k,
{
    if k > 0 {
        lemma_same_prefix(a, b, (k - 1) as nat);
        let n = k - 1;
        assert(b.contains(a[n]));
        let j = choose|j: int| 0 <= j < b.len() && b[j] == a[n];
        if j < n {
            lemma_before_total(a[j], a[n]);
        } else if j > n {
            assert(a.contains(b[n]));
            let m = choose|m: int| 0 <= m < a.len() && a[m] == b[n];
            lemma_before_total(b[n], b[j]);
            if m < n {
                lemma_before_total(b[m], b[n]);
            } else if m > n {
                lemma_before_total(a[n], a[m]);
                assert(before(a[n], a[m]));
                assert(before(b[n], b[j]));
            }
        }
    }
}

} // verus!
