use vstd::prelude::*;

verus! {

/// `a` comes before `b` in the order of `str`: character by character by
/// code point, a proper prefix first. (UTF-8 keeps code point order, so this
/// is also the byte order that `String`'s `Ord` uses.)
pub open spec fn seq_less(a: Seq<char>, b: Seq<char>) -> bool
    decreases a.len(),
{
    if a.len() == 0 {
        b.len() > 0
    } else if b.len() == 0 {
        false
    } else if a[0] != b[0] {
        (a[0] as int) < (b[0] as int)
    } else {
        seq_less(a.skip(1), b.skip(1))
    }
}

/// No text comes before itself.
pub proof fn lemma_seq_less_irreflexive(a: Seq<char>)
    ensures
        !seq_less(a, a),
    decreases a.len(),
{
    if a.len() > 0 {
        lemma_seq_less_irreflexive(a.skip(1));
    }
}

/// The order is transitive.
pub proof fn lemma_seq_less_transitive(a: Seq<char>, b: Seq<char>, c: Seq<char>)
    requires
        seq_less(a, b),
        seq_less(b, c),
    ensures
        seq_less(a, c),
    decreases a.len(),
{
    if a.len() > 0 && b.len() > 0 && c.len() > 0 {
        if a[0] == b[0] && b[0] == c[0] {
            lemma_seq_less_transitive(a.skip(1), b.skip(1), c.skip(1));
        }
    }
}

/// Of two different texts, one comes first.
pub proof fn lemma_seq_less_total(a: Seq<char>, b: Seq<char>)
    requires
        a != b,
    ensures
        seq_less(a, b) || seq_less(b, a),
    decreases a.len(),
{
    if a.len() > 0 && b.len() > 0 {
        if a[0] == b[0] {
            if a.skip(1) == b.skip(1) {
                assert(a =~= seq![a[0]] + a.skip(1));
                assert(b =~= seq![b[0]] + b.skip(1));
            }
            lemma_seq_less_total(a.skip(1), b.skip(1));
        } else {
        }
    } else if a.len() == 0 && b.len() == 0 {
        assert(a =~= b);
    }
}

/// Whether `a` comes before `b`.
pub fn str_less(a: &str, b: &str) -> (r: bool)
    ensures
        r == seq_less(a@, b@),
{
    let n = a.unicode_len();
    let m = b.unicode_len();
    let mut i: usize = 0;
    proof {
        assert(a@.skip(0) =~= a@);
        assert(b@.skip(0) =~= b@);
    }
    while i < n && i < m
        invariant
            n == a@.len(),
            m == b@.len(),
            i <= n,
            i <= m,
            seq_less(a@, b@) == seq_less(a@.skip(i as int), b@.skip(i as int)),
        decreases n - i,
    {
        let x = a.get_char(i);
        let y = b.get_char(i);
        proof {
            assert(a@.skip(i as int)[0] == x);
            assert(b@.skip(i as int)[0] == y);
            assert(a@.skip(i as int).skip(1) =~= a@.skip(i as int + 1));
            assert(b@.skip(i as int).skip(1) =~= b@.skip(i as int + 1));
        }
        if x != y {
            let r = (x as u32) < (y as u32);
            proof {
                assert(r == ((x as int) < (y as int)));
            }
            return r;
        }
        i = i + 1;
    }
    i == n && i < m
}

/// Texts in strictly increasing order.
pub open spec fn strictly_sorted(s: Seq<Seq<char>>) -> bool {
    forall|i: int, j: int| 0 <= i < j < s.len() ==> seq_less(#[trigger] s[i], #[trigger] s[j])
}

/// The plain values of strings.
pub open spec fn string_views(v: Seq<String>) -> Seq<Seq<char>> {
    v.map_values(|s: String| s@)
}

/// Inserts `x` into the strictly sorted `v`, unless it is there already.
pub fn insert_sorted_unique(v: &mut Vec<String>, x: String)
    requires
        strictly_sorted(string_views(old(v)@)),
    ensures
        strictly_sorted(string_views(final(v)@)),
        string_views(final(v)@).to_set() == string_views(old(v)@).to_set().insert(x@),
{
    let ghost old_views = string_views(v@);
    let mut k: usize = 0;
    let mut done = false;
    while k < v.len() && !done
        invariant
            old_views == string_views(v@),
            strictly_sorted(old_views),
            k <= v@.len(),
            forall|j: int| 0 <= j < k ==> seq_less(#[trigger] old_views[j], x@),
            done ==> k < v@.len() && !seq_less(old_views[k as int], x@),
        decreases v@.len() - k + if done { 0int } else { 1int },
    {
        proof {
            assert(old_views[k as int] == v@[k as int]@);
        }
        if !str_less(v[k].as_str(), x.as_str()) {
            done = true;
        } else {
            k = k + 1;
        }
    }
    if k < v.len() && crate::text::str_equal(v[k].as_str(), x.as_str()) {
        proof {
            assert(old_views[k as int] == x@);
            assert(old_views.to_set().insert(x@) =~= old_views.to_set());
        }
        return;
    }
    proof {
        if k < v@.len() {
            assert(old_views[k as int] == v@[k as int]@);
            assert(!seq_less(old_views[k as int], x@));
            assert(old_views[k as int] != x@);
            lemma_seq_less_total(old_views[k as int], x@);
            assert(seq_less(x@, old_views[k as int]));
        }
    }
    v.insert(k, x);
    proof {
        let nv = string_views(v@);
        assert(nv =~= old_views.insert(k as int, x@));
        assert forall|i: int, j: int| 0 <= i < j < nv.len() implies seq_less(
            #[trigger] nv[i],
            #[trigger] nv[j],
        ) by {
            if j < k {
                assert(nv[i] == old_views[i] && nv[j] == old_views[j]);
            } else if j == k {
                assert(nv[i] == old_views[i]);
            } else if i < k {
                assert(nv[i] == old_views[i] && nv[j] == old_views[j - 1]);
                if k < old_views.len() {
                    assert(seq_less(x@, old_views[k as int]));
                    if j - 1 > k {
                        lemma_seq_less_transitive(x@, old_views[k as int], old_views[j - 1]);
                    }
                    lemma_seq_less_transitive(old_views[i], x@, old_views[j - 1]);
                }
            } else if i == k {
                assert(nv[j] == old_views[j - 1]);
                if j - 1 > k {
                    lemma_seq_less_transitive(x@, old_views[k as int], old_views[j - 1]);
                }
            } else {
                assert(nv[i] == old_views[i - 1] && nv[j] == old_views[j - 1]);
            }
        }
        assert(nv.to_set() =~= old_views.to_set().insert(x@)) by {
            assert forall|y: Seq<char>| nv.to_set().contains(y) <==> old_views.to_set().insert(x@).contains(y) by {
                if nv.to_set().contains(y) {
                    let i = choose|i: int| 0 <= i < nv.len() && nv[i] == y;
                    if i < k {
                        assert(old_views[i] == y);
                    } else if i > k {
                        assert(old_views[i - 1] == y);
                    }
                }
                if old_views.to_set().contains(y) {
                    let i = choose|i: int| 0 <= i < old_views.len() && old_views[i] == y;
                    if i < k {
                        assert(nv[i] == y);
                    } else {
                        assert(nv[i + 1] == y);
                    }
                }
                if y == x@ {
                    assert(nv[k as int] == y);
                }
            }
        }
    }
}

} // verus!
