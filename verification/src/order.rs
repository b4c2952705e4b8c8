//! Lexicographic ordering of lines, and the sort that `set` applies to the
//! whole line set before rewriting the file.

use vstd::prelude::*;
use vstd::relations::{sorted_by, total_ordering};
use vstd::seq_lib::{lemma_multiset_commutative, lemma_sorted_unique};

verus! {

/// Lexicographic order on character sequences, by code point: the order the
/// rc-file's lines are kept in.
pub open spec fn lex_leq(a: Seq<char>, b: Seq<char>) -> bool
    decreases a.len(),
{
    if a.len() == 0 {
        true
    } else if b.len() == 0 {
        false
    } else if (a[0] as u32) < (b[0] as u32) {
        true
    } else if (b[0] as u32) < (a[0] as u32) {
        false
    } else {
        lex_leq(a.drop_first(), b.drop_first())
    }
}

/// The ordering as a relation value, for `sorted_by` and `sort_by`.
pub open spec fn line_order() -> spec_fn(Seq<char>, Seq<char>) -> bool {
    |a: Seq<char>, b: Seq<char>| lex_leq(a, b)
}

pub proof fn lemma_lex_leq_reflexive(a: Seq<char>)
    ensures
        lex_leq(a, a),
    decreases a.len(),
{
    if a.len() > 0 {
        lemma_lex_leq_reflexive(a.drop_first());
    }
}

pub proof fn lemma_lex_leq_connected(a: Seq<char>, b: Seq<char>)
    ensures
        lex_leq(a, b) || lex_leq(b, a),
    decreases a.len(),
{
    if a.len() > 0 && b.len() > 0 {
        let a0 = a[0] as u32;
        let b0 = b[0] as u32;
        if !(a0 < b0) && !(b0 < a0) {
            lemma_lex_leq_connected(a.drop_first(), b.drop_first());
        }
    }
}

pub proof fn lemma_lex_leq_antisymmetric(a: Seq<char>, b: Seq<char>)
    requires
        lex_leq(a, b),
        lex_leq(b, a),
    ensures
        a == b,
    decreases a.len(),
{
    if a.len() == 0 {
        assert(b.len() == 0);
        assert(a =~= b);
    } else {
        assert(b.len() > 0);
        let a0 = a[0] as u32;
        let b0 = b[0] as u32;
        assert(!(a0 < b0));
        assert(!(b0 < a0));
        vstd::utf8::char_u32_cast(a[0], a0);
        vstd::utf8::char_u32_cast(b[0], b0);
        assert(a[0] == b[0]);
        lemma_lex_leq_antisymmetric(a.drop_first(), b.drop_first());
        assert forall|j: int| 0 <= j < a.len() implies a[j] == b[j] by {
            if j > 0 {
                assert(a.drop_first()[j - 1] == b.drop_first()[j - 1]);
            }
        }
        assert(a =~= b);
    }
}

pub proof fn lemma_lex_leq_transitive(a: Seq<char>, b: Seq<char>, c: Seq<char>)
    requires
        lex_leq(a, b),
        lex_leq(b, c),
    ensures
        lex_leq(a, c),
    decreases a.len(),
{
    if a.len() == 0 {
    } else {
        assert(b.len() > 0);
        assert(c.len() > 0);
        let a0 = a[0] as u32;
        let b0 = b[0] as u32;
        let c0 = c[0] as u32;
        assert(!(b0 < a0));
        assert(!(c0 < b0));
        if !(a0 < b0) && !(b0 < c0) {
            lemma_lex_leq_transitive(a.drop_first(), b.drop_first(), c.drop_first());
        }
    }
}

/// The line ordering is a total ordering, as `Seq::sort_by` requires.
pub proof fn lemma_line_order_total()
    ensures
        total_ordering(line_order()),
{
    let leq = line_order();
    assert forall|a: Seq<char>| #[trigger] leq(a, a) by {
        lemma_lex_leq_reflexive(a);
    }
    assert forall|a: Seq<char>, b: Seq<char>| #[trigger] leq(a, b) && #[trigger] leq(b, a)
        implies a == b by {
        lemma_lex_leq_antisymmetric(a, b);
    }
    assert forall|a: Seq<char>, b: Seq<char>, c: Seq<char>|
        #[trigger] leq(a, b) && #[trigger] leq(b, c) implies leq(a, c) by {
        lemma_lex_leq_transitive(a, b, c);
    }
    assert forall|a: Seq<char>, b: Seq<char>| #[trigger] leq(a, b) || #[trigger] leq(b, a) by {
        lemma_lex_leq_connected(a, b);
    }
}

/// Decides `lex_leq` on two strings.
pub fn str_leq(a: &str, b: &str) -> (r: bool)
    ensures
        r == lex_leq(a@, b@),
{
    let alen = a.unicode_len();
    let blen = b.unicode_len();
    let mut i: usize = 0;
    proof {
        assert(a@.subrange(0, alen as int) =~= a@);
        assert(b@.subrange(0, blen as int) =~= b@);
    }
    loop
        invariant
            i <= alen,
            i <= blen,
            alen == a@.len(),
            blen == b@.len(),
            lex_leq(a@, b@) == lex_leq(
                a@.subrange(i as int, alen as int),
                b@.subrange(i as int, blen as int),
            ),
        decreases alen - i,
    {
        let ghost sa = a@.subrange(i as int, alen as int);
        let ghost sb = b@.subrange(i as int, blen as int);
        if i == alen {
            proof {
                assert(sa.len() == 0);
            }
            return true;
        }
        if i == blen {
            proof {
                assert(sa.len() > 0 && sb.len() == 0);
            }
            return false;
        }
        let ca = a.get_char(i) as u32;
        let cb = b.get_char(i) as u32;
        proof {
            assert(sa[0] == a@[i as int]);
            assert(sb[0] == b@[i as int]);
        }
        if ca < cb {
            return true;
        }
        if cb < ca {
            return false;
        }
        proof {
            assert(sa.drop_first() =~= a@.subrange(i + 1, alen as int));
            assert(sb.drop_first() =~= b@.subrange(i + 1, blen as int));
        }
        i += 1;
    }
}

/// Inserting an element anywhere adds exactly it to the multiset of elements.
proof fn lemma_insert_multiset(s: Seq<Seq<char>>, k: int, x: Seq<char>)
    requires
        0 <= k <= s.len(),
    ensures
        s.insert(k, x).to_multiset() == s.to_multiset().insert(x),
{
    broadcast use vstd::seq_lib::group_to_multiset_ensures;

    let front = s.subrange(0, k);
    let back = s.subrange(k, s.len() as int);
    assert(s.insert(k, x) =~= front.push(x) + back);
    lemma_multiset_commutative(front.push(x), back);
    assert(s =~= front + back);
    lemma_multiset_commutative(front, back);
    assert(front.push(x).to_multiset() =~= front.to_multiset().insert(x));
    assert(s.insert(k, x).to_multiset() =~= s.to_multiset().insert(x));
}

/// First position in the sorted `out` whose line is not `<= x`: the position
/// a new line `x` is inserted at.
fn insert_pos(out: &Vec<String>, x: &String) -> (k: usize)
    ensures
        k <= out.len(),
        forall|t: int| 0 <= t < k ==> lex_leq(out.deep_view()[t], x@),
        k < out.len() ==> !lex_leq(out.deep_view()[k as int], x@),
{
    let mut k: usize = 0;
    while k < out.len()
        invariant
            k <= out.len(),
            forall|t: int| 0 <= t < k ==> lex_leq(out.deep_view()[t], x@),
        decreases out.len() - k,
    {
        if !str_leq(out[k].as_str(), x.as_str()) {
            proof {
                assert(out.deep_view()[k as int] == out@[k as int]@);
            }
            return k;
        }
        proof {
            assert(out.deep_view()[k as int] == out@[k as int]@);
        }
        k += 1;
    }
    k
}

/// Sorts the lines lexicographically ascending, as `set` leaves the file.
pub fn sort_lines(v: &Vec<String>) -> (r: Vec<String>)
    ensures
        r.deep_view() == v.deep_view().sort_by(line_order()),
{
    broadcast use vstd::seq_lib::group_to_multiset_ensures;

    proof {
        lemma_line_order_total();
    }
    let mut out: Vec<String> = Vec::new();
    let mut i: usize = 0;
    proof {
        assert(out.deep_view() =~= Seq::<Seq<char>>::empty());
        assert(v.deep_view().subrange(0, 0) =~= Seq::<Seq<char>>::empty());
    }
    while i < v.len()
        invariant
            i <= v.len(),
            sorted_by(out.deep_view(), line_order()),
            out.deep_view().to_multiset() == v.deep_view().subrange(0, i as int).to_multiset(),
        decreases v.len() - i,
    {
        let x: String = v[i].clone();
        proof {
            assert(x@ == v.deep_view()[i as int]);
        }
        let k = insert_pos(&out, &x);
        let ghost old_dv = out.deep_view();
        out.insert(k, x);
        proof {
            let new_dv = out.deep_view();
            assert(new_dv =~= old_dv.insert(k as int, x@));
            old_dv.insert_ensures(k as int, x@);
            // the inserted line sits between its lower and upper neighbours
            assert forall|p: int, q: int| 0 <= p < q < new_dv.len() implies #[trigger] line_order()(
                new_dv[p],
                new_dv[q],
            ) by {
                if p < k && q == k {
                    assert(new_dv[p] == old_dv[p]);
                    assert(lex_leq(old_dv[p], x@));
                } else if p == k && q > k {
                    assert(new_dv[q] == old_dv[q - 1]);
                    if k < old_dv.len() {
                        lemma_lex_leq_connected(old_dv[k as int], x@);
                        assert(lex_leq(x@, old_dv[k as int]));
                        if q - 1 > k {
                            assert(line_order()(old_dv[k as int], old_dv[q - 1]));
                            lemma_lex_leq_transitive(x@, old_dv[k as int], old_dv[q - 1]);
                        }
                    }
                } else if p < k && q > k {
                    assert(new_dv[p] == old_dv[p]);
                    assert(new_dv[q] == old_dv[q - 1]);
                    if p == q - 1 {
                        lemma_lex_leq_reflexive(old_dv[p]);
                    } else {
                        assert(line_order()(old_dv[p], old_dv[q - 1]));
                    }
                } else if q < k {
                    assert(line_order()(old_dv[p], old_dv[q]));
                } else if p > k {
                    assert(new_dv[p] == old_dv[p - 1]);
                    assert(new_dv[q] == old_dv[q - 1]);
                    assert(line_order()(old_dv[p - 1], old_dv[q - 1]));
                }
            }
            lemma_insert_multiset(old_dv, k as int, x@);
            let pre = v.deep_view().subrange(0, i as int);
            assert(v.deep_view().subrange(0, i + 1) =~= pre.push(x@));
            pre.to_multiset_ensures();
            assert(pre.push(x@).to_multiset() =~= pre.to_multiset().insert(x@));
            assert(new_dv.to_multiset() == v.deep_view().subrange(0, i + 1).to_multiset());
        }
        i += 1;
    }
    proof {
        assert(v.deep_view().subrange(0, v.deep_view().len() as int) =~= v.deep_view());
        v.deep_view().lemma_sort_by_ensures(line_order());
        lemma_sorted_unique(out.deep_view(), v.deep_view().sort_by(line_order()), line_order());
    }
    out
}

} // verus!
