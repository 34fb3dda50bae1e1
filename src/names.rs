//! Lexicographic order on names, and sorted lists of distinct names.
use vstd::prelude::*;

verus! {

/// `a` comes strictly before `b`, comparing characters by code point.
/// On valid UTF-8 this is the order that `String`'s `Ord` uses.
pub open spec fn name_lt(a: Seq<char>, b: Seq<char>) -> bool
    decreases a.len(),
{
    if a.len() == 0 {
        b.len() > 0
    } else if b.len() == 0 {
        false
    } else if a[0] != b[0] {
        (a[0] as u32) < (b[0] as u32)
    } else {
        name_lt(a.drop_first(), b.drop_first())
    }
}

/// Strictly increasing, so also free of repeats.
pub open spec fn strictly_sorted(s: Seq<Seq<char>>) -> bool {
    forall|i: int, j: int| 0 <= i < j < s.len() ==> #[trigger] name_lt(s[i], s[j])
}

pub open spec fn views(v: Seq<String>) -> Seq<Seq<char>> {
    v.map_values(|s: String| s@)
}

pub proof fn lemma_lt_irreflexive(a: Seq<char>)
    ensures
        !name_lt(a, a),
    decreases a.len(),
{
    if a.len() > 0 {
        lemma_lt_irreflexive(a.drop_first());
    }
}

pub proof fn lemma_lt_asymmetric(a: Seq<char>, b: Seq<char>)
    ensures
        !(name_lt(a, b) && name_lt(b, a)),
    decreases a.len(),
{
    if a.len() > 0 && b.len() > 0 && a[0] == b[0] {
        lemma_lt_asymmetric(a.drop_first(), b.drop_first());
    }
}

pub proof fn lemma_lt_transitive(a: Seq<char>, b: Seq<char>, c: Seq<char>)
    requires
        name_lt(a, b),
        name_lt(b, c),
    ensures
        name_lt(a, c),
    decreases a.len(),
{
    if a.len() > 0 && b.len() > 0 && c.len() > 0 && a[0] == b[0] && b[0] == c[0] {
        lemma_lt_transitive(a.drop_first(), b.drop_first(), c.drop_first());
    }
}

pub proof fn lemma_lt_total(a: Seq<char>, b: Seq<char>)
    requires
        a != b,
    ensures
        name_lt(a, b) || name_lt(b, a),
    decreases a.len(),
{
    if a.len() == 0 && b.len() == 0 {
        assert(a =~= b);
    }
    if a.len() > 0 && b.len() > 0 && a[0] == b[0] {
        if a.drop_first() == b.drop_first() {
            assert(a =~= seq![a[0]] + a.drop_first());
            assert(b =~= seq![b[0]] + b.drop_first());
        }
        lemma_lt_total(a.drop_first(), b.drop_first());
    }
    if a.len() > 0 && b.len() > 0 && a[0] != b[0] {
        let x = a[0] as u32;
        let y = b[0] as u32;
        vstd::utf8::char_u32_cast(a[0], x);
        vstd::utf8::char_u32_cast(b[0], y);
        assert(x != y);
        assert(x < y ==> name_lt(a, b));
        assert(y < x ==> name_lt(b, a));
    }
}

/// Whether `a` comes strictly before `b`.
pub fn less_than(a: &str, b: &str) -> (r: bool)
    ensures
        r == name_lt(a@, b@),
{
    let la = a.unicode_len();
    let lb = b.unicode_len();
    let mut i: usize = 0;
    assert(a@.skip(0) =~= a@);
    assert(b@.skip(0) =~= b@);
    while i < la && i < lb
        invariant
            la == a@.len(),
            lb == b@.len(),
            i <= la,
            i <= lb,
            name_lt(a@, b@) == name_lt(a@.skip(i as int), b@.skip(i as int)),
        decreases la - i,
    {
        let ca = a.get_char(i);
        let cb = b.get_char(i);
        if ca != cb {
            let x = ca as u32;
            let y = cb as u32;
            return x < y;
        }
        assert(a@.skip(i as int).drop_first() =~= a@.skip(i + 1));
        assert(b@.skip(i as int).drop_first() =~= b@.skip(i + 1));
        i = i + 1;
    }
    i < lb
}

/// Puts `s` into the strictly sorted `v`, unless a name with its text is there already.
pub fn insert_name(v: &mut Vec<String>, s: &str)
    requires
        strictly_sorted(views(old(v)@)),
    ensures
        strictly_sorted(views(final(v)@)),
        views(final(v)@).to_set() == views(old(v)@).to_set().insert(s@),
{
    let ghost old_names = views(v@);
    let mut i: usize = 0;
    while i < v.len()
        invariant
            strictly_sorted(views(v@)),
            views(v@) == old_names,
            i <= v.len(),
            forall|k: int| 0 <= k < i ==> #[trigger] name_lt(views(v@)[k], s@),
        ensures
            views(v@) == old_names,
            i <= v.len(),
            forall|k: int| 0 <= k < i ==> #[trigger] name_lt(views(v@)[k], s@),
            i < v.len() ==> !name_lt(views(v@)[i as int], s@),
        decreases v.len() - i,
    {
        if !less_than(v[i].as_str(), s) {
            break;
        }
        i = i + 1;
    }
    if i < v.len() && !less_than(s, v[i].as_str()) {
        proof {
            if views(v@)[i as int] != s@ {
                lemma_lt_total(views(v@)[i as int], s@);
            }
            assert(views(v@)[i as int] == s@);
            assert(views(v@).contains(s@));
        }
        assert(views(v@).to_set().insert(s@) =~= views(v@).to_set());
        return;
    }
    let ghost before = v@;
    v.insert(i, s.to_string());
    assert(views(v@) =~= views(before).insert(i as int, s@));
    assert forall|p: int, q: int| 0 <= p < q < views(v@).len() implies #[trigger] name_lt(
        views(v@)[p],
        views(v@)[q],
    ) by {
        let w = views(before);
        if q < i {
        } else if p < i && q == i {
        } else if p < i {
        } else if p == i {
            if q - 1 > i {
                lemma_lt_transitive(s@, w[i as int], w[q - 1]);
            }
        } else {
        }
    };
    let ghost w = views(before);
    let ghost w2 = views(v@);
    assert forall|x: Seq<char>| #[trigger] w2.contains(x) <==> w.contains(x) || x == s@ by {
        if w.contains(x) {
            let k = choose|k: int| 0 <= k < w.len() && w[k] == x;
            if k < i {
                assert(w2[k] == x);
            } else {
                assert(w2[k + 1] == x);
            }
        }
        if x == s@ {
            assert(w2[i as int] == x);
        }
        if w2.contains(x) {
            let k = choose|k: int| 0 <= k < w2.len() && w2[k] == x;
            if k < i {
                assert(w[k] == x);
            } else if k > i {
                assert(w[k - 1] == x);
            }
        }
    };
    assert(views(v@).to_set() =~= views(before).to_set().insert(s@));
}

/// The strictly sorted sequence that holds exactly the names in `s`.
pub open spec fn sorted_of(s: Set<Seq<char>>) -> Seq<Seq<char>> {
    choose|q: Seq<Seq<char>>| strictly_sorted(q) && q.to_set() == s
}

proof fn lemma_rest_set(a: Seq<Seq<char>>)
    requires
        strictly_sorted(a),
        a.len() > 0,
    ensures
        a.drop_first().to_set() == a.to_set().remove(a[0]),
{
    assert forall|x: Seq<char>| #[trigger] a.drop_first().contains(x) <==> a.contains(x) && x != a[0] by {
        if a.drop_first().contains(x) {
            let k = choose|k: int| 0 <= k < a.len() - 1 && a.drop_first()[k] == x;
            assert(a[k + 1] == x);
            assert(name_lt(a[0], a[k + 1]));
            lemma_lt_irreflexive(x);
        }
        if a.contains(x) && x != a[0] {
            let k = choose|k: int| 0 <= k < a.len() && a[k] == x;
            assert(a.drop_first()[k - 1] == x);
        }
    };
    assert(a.drop_first().to_set() =~= a.to_set().remove(a[0]));
}

/// Two strictly sorted sequences with the same names are the same sequence.
pub proof fn lemma_sorted_unique(a: Seq<Seq<char>>, b: Seq<Seq<char>>)
    requires
        strictly_sorted(a),
        strictly_sorted(b),
        a.to_set() == b.to_set(),
    ensures
        a == b,
    decreases a.len(),
{
    if a.len() == 0 || b.len() == 0 {
        if a.len() > 0 {
            assert(a.to_set().contains(a[0]));
        }
        if b.len() > 0 {
            assert(b.to_set().contains(b[0]));
        }
        assert(a =~= b);
    } else {
        assert(a.to_set().contains(a[0]));
        assert(b.to_set().contains(b[0]));
        let j = choose|j: int| 0 <= j < a.len() && a[j] == b[0];
        let k = choose|k: int| 0 <= k < b.len() && b[k] == a[0];
        if a[0] != b[0] {
            if j > 0 {
                assert(name_lt(a[0], a[j]));
            }
            if k > 0 {
                assert(name_lt(b[0], b[k]));
            }
            lemma_lt_asymmetric(a[0], b[0]);
        }
        lemma_rest_set(a);
        lemma_rest_set(b);
        assert(strictly_sorted(a.drop_first()));
        assert(strictly_sorted(b.drop_first()));
        lemma_sorted_unique(a.drop_first(), b.drop_first());
        assert(a =~= seq![a[0]] + a.drop_first());
        assert(b =~= seq![b[0]] + b.drop_first());
    }
}

/// A strictly sorted sequence is the sorted sequence of its own names.
pub proof fn lemma_sorted_of(q: Seq<Seq<char>>)
    requires
        strictly_sorted(q),
    ensures
        sorted_of(q.to_set()) == q,
{
    let r = sorted_of(q.to_set());
    assert(strictly_sorted(r) && r.to_set() == q.to_set());
    lemma_sorted_unique(r, q);
}

} // verus!
