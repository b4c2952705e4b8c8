//! The line model of the rc-file: content is a sequence of characters, its
//! logical reading a sequence of newline-free lines. `split_lines` and
//! `dump_lines` convert between the two; the round-trip lemma says that
//! serialising lines and reading them back is the identity.

use vstd::prelude::*;

verus! {

/// A line may not contain a newline, or it could not be written back as one
/// line of the file.
pub open spec fn newline_free(l: Seq<char>) -> bool {
    forall|j: int| 0 <= j < l.len() ==> l[j] != '\n'
}

/// Every line of `lines` is newline-free.
pub open spec fn all_newline_free(lines: Seq<Seq<char>>) -> bool {
    forall|i: int| 0 <= i < lines.len() ==> newline_free(#[trigger] lines[i])
}

/// Index of the first newline of `s`, or `s.len()` when `s` holds none.
pub open spec fn first_newline(s: Seq<char>) -> int
    decreases s.len(),
{
    if s.len() == 0 {
        0
    } else if s[0] == '\n' {
        0
    } else {
        1 + first_newline(s.drop_first())
    }
}

pub proof fn lemma_first_newline_bounds(s: Seq<char>)
    ensures
        0 <= first_newline(s) <= s.len(),
        forall|j: int| 0 <= j < first_newline(s) ==> s[j] != '\n',
        first_newline(s) < s.len() ==> s[first_newline(s)] == '\n',
    decreases s.len(),
{
    if s.len() == 0 {
    } else if s[0] == '\n' {
    } else {
        lemma_first_newline_bounds(s.drop_first());
        assert forall|j: int| 0 <= j < first_newline(s) implies s[j] != '\n' by {
            if j > 0 {
                assert(s.drop_first()[j - 1] != '\n');
            }
        }
        if first_newline(s) < s.len() {
            assert(s[first_newline(s)] == s.drop_first()[first_newline(s.drop_first())]);
        }
    }
}

/// The first newline stands exactly where a newline-free stretch ends.
pub proof fn lemma_first_newline_at(s: Seq<char>, k: int)
    requires
        0 <= k <= s.len(),
        forall|j: int| 0 <= j < k ==> s[j] != '\n',
        k == s.len() || s[k] == '\n',
    ensures
        first_newline(s) == k,
    decreases k,
{
    if k == 0 {
    } else {
        assert(s[0] != '\n');
        assert forall|j: int| 0 <= j < k - 1 implies s.drop_first()[j] != '\n' by {
            assert(s[j + 1] != '\n');
        }
        if k < s.len() {
            assert(s.drop_first()[k - 1] == s[k]);
        }
        lemma_first_newline_at(s.drop_first(), k - 1);
    }
}

/// The lines of `s`: the stretches between newlines. A final stretch without
/// a terminating newline counts as a line; a terminating newline adds no
/// empty final line.
pub open spec fn spec_lines(s: Seq<char>) -> Seq<Seq<char>>
    decreases s.len(),
{
    if s.len() == 0 {
        Seq::empty()
    } else {
        let i = first_newline(s);
        if 0 <= i < s.len() {
            seq![s.subrange(0, i)] + spec_lines(s.subrange(i + 1, s.len() as int))
        } else {
            seq![s]
        }
    }
}

/// The content that serialises `lines`: each line followed by one newline.
pub open spec fn spec_unlines(lines: Seq<Seq<char>>) -> Seq<char>
    decreases lines.len(),
{
    if lines.len() == 0 {
        Seq::empty()
    } else {
        lines[0] + seq!['\n'] + spec_unlines(lines.drop_first())
    }
}

/// Serialisation concatenates: the file for `a + b` is the file for `a`
/// followed by the file for `b`.
pub proof fn lemma_unlines_add(a: Seq<Seq<char>>, b: Seq<Seq<char>>)
    ensures
        spec_unlines(a + b) == spec_unlines(a) + spec_unlines(b),
    decreases a.len(),
{
    if a.len() == 0 {
        assert(a + b =~= b);
        assert(spec_unlines(a) + spec_unlines(b) =~= spec_unlines(b));
    } else {
        assert((a + b).drop_first() =~= a.drop_first() + b);
        lemma_unlines_add(a.drop_first(), b);
        assert(spec_unlines(a + b) =~= spec_unlines(a) + spec_unlines(b));
    }
}

/// Every line that `spec_lines` yields is newline-free.
pub proof fn lemma_lines_newline_free(s: Seq<char>)
    ensures
        all_newline_free(spec_lines(s)),
    decreases s.len(),
{
    if s.len() == 0 {
    } else {
        lemma_first_newline_bounds(s);
        let i = first_newline(s);
        if i < s.len() {
            lemma_lines_newline_free(s.subrange(i + 1, s.len() as int));
            assert(newline_free(s.subrange(0, i)));
            assert forall|k: int| 0 <= k < spec_lines(s).len() implies newline_free(
                #[trigger] spec_lines(s)[k],
            ) by {
                if k > 0 {
                    assert(spec_lines(s)[k] == spec_lines(s.subrange(i + 1, s.len() as int))[k
                        - 1]);
                }
            }
        } else {
            assert(newline_free(s));
        }
    }
}

/// Round trip: reading back a serialised line set yields the same lines,
/// provided each line is newline-free.
pub proof fn lemma_lines_of_unlines(lines: Seq<Seq<char>>)
    requires
        all_newline_free(lines),
    ensures
        spec_lines(spec_unlines(lines)) == lines,
    decreases lines.len(),
{
    if lines.len() == 0 {
    } else {
        let l0 = lines[0];
        let s = spec_unlines(lines);
        assert(s =~= l0 + seq!['\n'] + spec_unlines(lines.drop_first()));
        assert(newline_free(l0));
        assert forall|j: int| 0 <= j < l0.len() implies s[j] != '\n' by {
            assert(s[j] == l0[j]);
        }
        assert(s[l0.len() as int] == '\n');
        lemma_first_newline_at(s, l0.len() as int);
        assert(s.subrange(0, l0.len() as int) =~= l0);
        assert(s.subrange(l0.len() as int + 1, s.len() as int) =~= spec_unlines(
            lines.drop_first(),
        ));
        assert forall|i: int| 0 <= i < lines.drop_first().len() implies newline_free(
            #[trigger] lines.drop_first()[i],
        ) by {
            assert(lines.drop_first()[i] == lines[i + 1]);
        }
        lemma_lines_of_unlines(lines.drop_first());
        assert(spec_lines(s) =~= lines);
    }
}

/// Splits file content into its lines.
pub fn split_lines(content: &str) -> (r: Vec<String>)
    ensures
        r.deep_view() == spec_lines(content@),
{
    let len = content.unicode_len();
    let mut r: Vec<String> = Vec::new();
    let mut start: usize = 0;
    let mut i: usize = 0;
    proof {
        assert(content@.subrange(0, len as int) =~= content@);
        assert(r.deep_view() =~= Seq::<Seq<char>>::empty());
        assert(r.deep_view() + spec_lines(content@) =~= spec_lines(content@));
    }
    while i < len
        invariant
            start <= i <= len,
            len == content@.len(),
            spec_lines(content@) == r.deep_view() + spec_lines(
                content@.subrange(start as int, len as int),
            ),
            forall|j: int| start <= j < i ==> content@[j] != '\n',
        decreases len - i,
    {
        let c = content.get_char(i);
        if c == '\n' {
            let line = content.substring_char(start, i).to_owned();
            proof {
                let suffix = content@.subrange(start as int, len as int);
                assert forall|j: int| 0 <= j < i - start implies suffix[j] != '\n' by {
                    assert(suffix[j] == content@[start + j]);
                }
                assert(suffix[i - start] == content@[i as int]);
                lemma_first_newline_at(suffix, i - start);
                assert(suffix.subrange(0, i - start) =~= content@.subrange(
                    start as int,
                    i as int,
                ));
                assert(suffix.subrange(i - start + 1, suffix.len() as int) =~= content@.subrange(
                    i + 1,
                    len as int,
                ));
                assert(spec_lines(suffix) == seq![line@] + spec_lines(
                    content@.subrange(i + 1, len as int),
                ));
            }
            let ghost old_dv = r.deep_view();
            r.push(line);
            proof {
                assert(r.deep_view() =~= old_dv.push(line@));
                assert(r.deep_view() + spec_lines(content@.subrange(i + 1, len as int)) =~= old_dv
                    + (seq![line@] + spec_lines(content@.subrange(i + 1, len as int))));
            }
            start = i + 1;
        }
        i += 1;
    }
    proof {
        let suffix = content@.subrange(start as int, len as int);
        assert forall|j: int| 0 <= j < suffix.len() implies suffix[j] != '\n' by {
            assert(suffix[j] == content@[start + j]);
        }
        lemma_first_newline_at(suffix, suffix.len() as int);
    }
    if start < len {
        let line = content.substring_char(start, len).to_owned();
        let ghost old_dv = r.deep_view();
        proof {
            let suffix = content@.subrange(start as int, len as int);
            assert(spec_lines(suffix) == seq![suffix]);
            assert(suffix == line@);
        }
        r.push(line);
        proof {
            assert(r.deep_view() =~= old_dv.push(line@));
            assert(r.deep_view() =~= old_dv + seq![line@]);
        }
    } else {
        proof {
            let suffix = content@.subrange(start as int, len as int);
            assert(spec_lines(suffix) =~= Seq::<Seq<char>>::empty());
            assert(r.deep_view() + spec_lines(suffix) =~= r.deep_view());
        }
    }
    r
}

/// Serialises lines back into file content, one newline after each line.
pub fn dump_lines(lines: &Vec<String>) -> (r: String)
    ensures
        r@ == spec_unlines(lines.deep_view()),
{
    let mut r = String::new();
    let mut i: usize = 0;
    while i < lines.len()
        invariant
            i <= lines.len(),
            r@ == spec_unlines(lines.deep_view().subrange(0, i as int)),
        decreases lines.len() - i,
    {
        let ghost prefix = lines.deep_view().subrange(0, i as int);
        r.append(lines[i].as_str());
        r.append("\n");
        proof {
            reveal_strlit("\n");
            let elt = lines.deep_view()[i as int];
            lemma_unlines_add(prefix, seq![elt]);
            assert(seq![elt].drop_first() =~= Seq::<Seq<char>>::empty());
            assert(spec_unlines(Seq::<Seq<char>>::empty()) =~= Seq::<char>::empty());
            assert(spec_unlines(seq![elt]) =~= elt + seq!['\n']);
            assert(lines.deep_view().subrange(0, i + 1) =~= prefix + seq![elt]);
            assert("\n"@ =~= seq!['\n']);
            assert(r@ =~= spec_unlines(lines.deep_view().subrange(0, i + 1)));
        }
        i += 1;
    }
    proof {
        assert(lines.deep_view().subrange(0, lines.deep_view().len() as int) =~= lines.deep_view());
    }
    r
}

} // verus!
