//! The store's laws: idempotence of `unset`, uniqueness of the assignment
//! line after `set`, the sorted layout of a rewritten file, the creation
//! content of `load`, and the impossibility of one name capturing another's
//! line.
//!
//! Names and values are taken newline-free where a law speaks of the lines
//! of a rewritten file: a newline inside either would split the written
//! assignment across two lines. Where a law compares two names, both are
//! taken free of `=`, the delimiter that closes a name in a line.

use crate::lines::{
    all_newline_free, lemma_lines_newline_free, lemma_lines_of_unlines, newline_free, spec_lines,
};
use crate::order::{lemma_line_order_total, line_order};
use crate::store::{
    assignment_line, assignment_prefix, export_prefix, is_assignment_for, kept_lines,
    spec_initial_content, spec_load, spec_set_content, spec_unset_content,
};
use vstd::prelude::*;
use vstd::relations::sorted_by;

verus! {

/// Every element of a filtered sequence is an element of the original.
proof fn lemma_filter_elements(s: Seq<Seq<char>>, pred: spec_fn(Seq<char>) -> bool)
    ensures
        forall|i: int|
            0 <= i < s.filter(pred).len() ==> s.contains(#[trigger] s.filter(pred)[i]),
    decreases s.len(),
{
    reveal(Seq::filter);
    if s.len() > 0 {
        lemma_filter_elements(s.drop_last(), pred);
        let out = s.filter(pred);
        let sub = s.drop_last().filter(pred);
        assert forall|i: int| 0 <= i < out.len() implies s.contains(out[i]) by {
            if pred(s.last()) && i == out.len() - 1 {
                assert(s[s.len() - 1] == out[i]);
            } else {
                assert(out[i] == sub[i]);
                assert(s.drop_last().contains(sub[i]));
                let j = choose|j: int| 0 <= j < s.drop_last().len() && s.drop_last()[j] == sub[i];
                assert(s[j] == out[i]);
            }
        }
    }
}

/// A filter whose predicate holds of every element changes nothing.
proof fn lemma_filter_all(s: Seq<Seq<char>>, pred: spec_fn(Seq<char>) -> bool)
    requires
        forall|i: int| 0 <= i < s.len() ==> pred(#[trigger] s[i]),
    ensures
        s.filter(pred) == s,
    decreases s.len(),
{
    reveal(Seq::filter);
    if s.len() > 0 {
        assert forall|i: int| 0 <= i < s.drop_last().len() implies pred(
            #[trigger] s.drop_last()[i],
        ) by {
            assert(s.drop_last()[i] == s[i]);
        }
        lemma_filter_all(s.drop_last(), pred);
        assert(s.filter(pred) =~= s);
    } else {
        assert(s.filter(pred) =~= s);
    }
}

/// Filtering does not change how often an element the predicate keeps
/// occurs.
proof fn lemma_filter_count(s: Seq<Seq<char>>, pred: spec_fn(Seq<char>) -> bool, x: Seq<char>)
    requires
        pred(x),
    ensures
        s.filter(pred).to_multiset().count(x) == s.to_multiset().count(x),
    decreases s.len(),
{
    broadcast use vstd::seq_lib::group_to_multiset_ensures;

    reveal(Seq::filter);
    if s.len() > 0 {
        lemma_filter_count(s.drop_last(), pred, x);
        assert(s =~= s.drop_last().push(s.last()));
        assert(s.to_multiset() =~= s.drop_last().to_multiset().insert(s.last()));
        if pred(s.last()) {
            assert(s.filter(pred) == s.drop_last().filter(pred).push(s.last()));
        } else {
            assert(s.last() != x);
        }
    }
}

/// The lines read back from an `unset` are exactly the kept lines, and they
/// are newline-free.
pub proof fn lemma_unset_lines(content: Seq<char>, name: Seq<char>)
    ensures
        all_newline_free(kept_lines(content, name)),
        spec_lines(spec_unset_content(content, name)) == kept_lines(content, name),
{
    let pred = |l: Seq<char>| !is_assignment_for(l, name);
    let kept = kept_lines(content, name);
    lemma_lines_newline_free(content);
    lemma_filter_elements(spec_lines(content), pred);
    assert forall|i: int| 0 <= i < kept.len() implies newline_free(#[trigger] kept[i]) by {
        assert(spec_lines(content).contains(kept[i]));
        let j = choose|j: int|
            0 <= j < spec_lines(content).len() && spec_lines(content)[j] == kept[i];
        assert(newline_free(spec_lines(content)[j]));
    }
    lemma_lines_of_unlines(kept);
}

/// Removing an assignment twice leaves the same file content as removing it
/// once: the second `unset` finds nothing to remove.
pub proof fn lemma_unset_idempotent(content: Seq<char>, name: Seq<char>)
    ensures
        spec_unset_content(spec_unset_content(content, name), name) == spec_unset_content(
            content,
            name,
        ),
{
    let pred = |l: Seq<char>| !is_assignment_for(l, name);
    let kept = kept_lines(content, name);
    lemma_unset_lines(content, name);
    assert forall|i: int| 0 <= i < kept.len() implies pred(#[trigger] kept[i]) by {
        spec_lines(content).lemma_filter_pred(pred, i);
    }
    lemma_filter_all(kept, pred);
    assert(kept_lines(spec_unset_content(content, name), name) == kept);
}

/// The new assignment line holds no newline when name and value hold none.
proof fn lemma_assignment_line_newline_free(name: Seq<char>, value: Seq<char>)
    requires
        newline_free(name),
        newline_free(value),
    ensures
        newline_free(assignment_line(name, value)),
{
    let l = assignment_line(name, value);
    assert forall|j: int| 0 <= j < l.len() implies l[j] != '\n' by {
        if j < 7 {
            assert(l[j] == export_prefix()[j]);
        } else if j < 7 + name.len() {
            assert(l[j] == name[j - 7]);
        } else if j == 7 + name.len() {
            assert(l[j] == '=');
        } else {
            assert(l[j] == value[j - (8 + name.len())]);
        }
    }
}

/// The built line is recognised as the assignment to its own name.
pub proof fn lemma_line_assigns_own_name(name: Seq<char>, value: Seq<char>)
    ensures
        is_assignment_for(assignment_line(name, value), name),
{
    let l = assignment_line(name, value);
    let p = assignment_prefix(name);
    assert(l.subrange(0, p.len() as int) =~= p);
}

/// The lines read back from a `set` are the kept lines plus the new
/// assignment line, sorted ascending; in particular the whole rewritten
/// file is sorted, which is the alphabetical layout invariant.
pub proof fn lemma_set_lines(content: Seq<char>, name: Seq<char>, value: Seq<char>)
    requires
        newline_free(name),
        newline_free(value),
    ensures
        spec_lines(spec_set_content(content, name, value)) == kept_lines(content, name).push(
            assignment_line(name, value),
        ).sort_by(line_order()),
        sorted_by(spec_lines(spec_set_content(content, name, value)), line_order()),
{
    broadcast use vstd::seq_lib::group_to_multiset_ensures;

    lemma_line_order_total();
    let kept = kept_lines(content, name);
    let line = assignment_line(name, value);
    let pushed = kept.push(line);
    let sorted = pushed.sort_by(line_order());
    lemma_unset_lines(content, name);
    lemma_assignment_line_newline_free(name, value);
    assert(all_newline_free(pushed)) by {
        assert forall|i: int| 0 <= i < pushed.len() implies newline_free(#[trigger] pushed[i]) by {
            if i < kept.len() {
                assert(pushed[i] == kept[i]);
            }
        }
    }
    pushed.lemma_sort_by_ensures(line_order());
    assert forall|i: int| 0 <= i < sorted.len() implies newline_free(#[trigger] sorted[i]) by {
        assert(sorted.contains(sorted[i]));
        assert(sorted.to_multiset().count(sorted[i]) > 0);
        assert(pushed.to_multiset().count(sorted[i]) > 0);
        assert(pushed.contains(sorted[i]));
        let j = choose|j: int| 0 <= j < pushed.len() && pushed[j] == sorted[i];
        assert(newline_free(pushed[j]));
    }
    lemma_lines_of_unlines(sorted);
}

/// After `set(name, value)` the file holds exactly one assignment line for
/// `name`: the line carrying `value`, once.
pub proof fn lemma_set_single_assignment(content: Seq<char>, name: Seq<char>, value: Seq<char>)
    requires
        newline_free(name),
        newline_free(value),
    ensures
        ({
            let ls = spec_lines(spec_set_content(content, name, value));
            &&& ls.to_multiset().count(assignment_line(name, value)) == 1
            &&& forall|l: Seq<char>|
                is_assignment_for(l, name) && l != assignment_line(name, value)
                    ==> ls.to_multiset().count(l) == 0
        }),
{
    broadcast use vstd::seq_lib::group_to_multiset_ensures;

    lemma_line_order_total();
    let pred = |l: Seq<char>| !is_assignment_for(l, name);
    let kept = kept_lines(content, name);
    let line = assignment_line(name, value);
    let pushed = kept.push(line);
    lemma_set_lines(content, name, value);
    pushed.lemma_sort_by_ensures(line_order());
    let ls = spec_lines(spec_set_content(content, name, value));
    assert(ls.to_multiset() == pushed.to_multiset());
    assert(pushed.to_multiset() =~= kept.to_multiset().insert(line));
    assert forall|l: Seq<char>| is_assignment_for(l, name) implies kept.to_multiset().count(l)
        == 0 by {
        if kept.to_multiset().count(l) > 0 {
            assert(kept.contains(l));
            let j = choose|j: int| 0 <= j < kept.len() && kept[j] == l;
            spec_lines(content).lemma_filter_pred(pred, j);
        }
    }
    lemma_line_assigns_own_name(name, value);
    assert(ls.to_multiset().count(line) == kept.to_multiset().count(line) + 1);
    assert forall|l: Seq<char>| is_assignment_for(l, name) && l != line implies ls.to_multiset()
        .count(l) == 0 by {
        assert(ls.to_multiset().count(l) == kept.to_multiset().count(l));
    }
}

/// Setting a name twice leaves exactly one assignment line for it, the one
/// carrying the second value.
pub proof fn lemma_set_roundtrip(content: Seq<char>, name: Seq<char>, v1: Seq<char>, v2: Seq<char>)
    requires
        newline_free(name),
        newline_free(v1),
        newline_free(v2),
    ensures
        ({
            let ls = spec_lines(
                spec_set_content(spec_set_content(content, name, v1), name, v2),
            );
            &&& ls.to_multiset().count(assignment_line(name, v2)) == 1
            &&& forall|l: Seq<char>|
                is_assignment_for(l, name) && l != assignment_line(name, v2)
                    ==> ls.to_multiset().count(l) == 0
        }),
{
    lemma_set_single_assignment(spec_set_content(content, name, v1), name, v2);
}

/// No line is the assignment of two distinct names, when neither name holds
/// the `=` delimiter.
pub proof fn lemma_assignment_name_unique(l: Seq<char>, name: Seq<char>, other: Seq<char>)
    requires
        name != other,
        !name.contains('='),
        !other.contains('='),
        is_assignment_for(l, name),
    ensures
        !is_assignment_for(l, other),
{
    if is_assignment_for(l, other) {
        let pn = assignment_prefix(name);
        let po = assignment_prefix(other);
        assert forall|j: int| 0 <= j < pn.len() implies l[j] == pn[j] by {
            assert(l.subrange(0, pn.len() as int)[j] == pn[j]);
        }
        assert forall|j: int| 0 <= j < po.len() implies l[j] == po[j] by {
            assert(l.subrange(0, po.len() as int)[j] == po[j]);
        }
        if name.len() == other.len() {
            assert forall|j: int| 0 <= j < name.len() implies name[j] == other[j] by {
                assert(pn[7 + j] == name[j]);
                assert(po[7 + j] == other[j]);
            }
            assert(name =~= other);
        } else if name.len() < other.len() {
            assert(pn[7 + name.len() as int] == '=');
            assert(po[7 + name.len() as int] == other[name.len() as int]);
            assert(other.contains('='));
        } else {
            assert(po[7 + other.len() as int] == '=');
            assert(pn[7 + other.len() as int] == name[other.len() as int]);
            assert(name.contains('='));
        }
    }
}

/// One name never captures another's line: the assignment line written for
/// one `=`-free name is not read as an assignment to a distinct `=`-free
/// name, even when one name is a prefix of the other.
pub proof fn lemma_distinct_names_no_capture(name: Seq<char>, other: Seq<char>, value: Seq<char>)
    requires
        name != other,
        !name.contains('='),
        !other.contains('='),
    ensures
        !is_assignment_for(assignment_line(other, value), name),
{
    lemma_line_assigns_own_name(other, value);
    lemma_assignment_name_unique(assignment_line(other, value), other, name);
}

/// A `set` of one name leaves the assignment lines of every distinct
/// `=`-free name exactly as often in the file as before.
pub proof fn lemma_set_preserves_other(
    content: Seq<char>,
    name: Seq<char>,
    other: Seq<char>,
    value: Seq<char>,
    l: Seq<char>,
)
    requires
        name != other,
        !name.contains('='),
        !other.contains('='),
        newline_free(name),
        newline_free(value),
        is_assignment_for(l, other),
    ensures
        spec_lines(spec_set_content(content, name, value)).to_multiset().count(l) == spec_lines(
            content,
        ).to_multiset().count(l),
{
    broadcast use vstd::seq_lib::group_to_multiset_ensures;

    lemma_line_order_total();
    let pred = |ln: Seq<char>| !is_assignment_for(ln, name);
    let kept = kept_lines(content, name);
    let line = assignment_line(name, value);
    let pushed = kept.push(line);
    lemma_set_lines(content, name, value);
    pushed.lemma_sort_by_ensures(line_order());
    let ls = spec_lines(spec_set_content(content, name, value));
    assert(ls.to_multiset() == pushed.to_multiset());
    assert(pushed.to_multiset() =~= kept.to_multiset().insert(line));
    lemma_assignment_name_unique(l, other, name);
    lemma_line_assigns_own_name(name, value);
    assert(l != line);
    assert(ls.to_multiset().count(l) == kept.to_multiset().count(l));
    lemma_filter_count(spec_lines(content), pred, l);
}

/// Loading an absent file creates exactly the header content, and a second
/// load returns that same content unchanged.
pub proof fn lemma_load_creation()
    ensures
        spec_load(None) == spec_initial_content(),
        spec_load(Some(spec_load(None))) == spec_load(None),
{
}

} // verus!
