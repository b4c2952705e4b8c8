//! The rc-file store: the assignment-line format, loading (with creation of
//! a fresh header-only file), merging an assignment in, and removing one.
//!
//! A `set` removes any line already assigning the name, appends the new
//! `export <name>=<value>` line, sorts the whole line set lexicographically
//! ascending and serialises it; an `unset` only removes and serialises, in
//! the order the remaining lines already had. Each operation yields the full
//! new file content; writing it out in one piece is the caller's part.

use crate::lines::{dump_lines, spec_lines, spec_unlines, split_lines};
use crate::order::{line_order, sort_lines};
use vstd::prelude::*;

verus! {

/// The name of the rc-file, relative to the user's home directory.
pub open spec fn spec_rc_file_name() -> Seq<char> {
    ".syncenvrc"@
}

/// The full content a freshly created rc-file holds: exactly the header
/// comment line.
pub open spec fn spec_initial_content() -> Seq<char> {
    "# Warning: this file is managed by syncenv #\n"@
}

/// The characters every assignment line opens with.
pub open spec fn export_prefix() -> Seq<char> {
    seq!['e', 'x', 'p', 'o', 'r', 't', ' ']
}

/// The full prefix that marks a line as the assignment to `name`:
/// `export <name>=`.
pub open spec fn assignment_prefix(name: Seq<char>) -> Seq<char> {
    export_prefix() + name + seq!['=']
}

/// The line persisting `name` with `value`: `export <name>=<value>`.
pub open spec fn assignment_line(name: Seq<char>, value: Seq<char>) -> Seq<char> {
    assignment_prefix(name) + value
}

/// Whether `line` encodes an assignment to `name`: it opens with
/// `export <name>=`. The closing `=` keeps one name from matching a longer
/// one it is a prefix of.
pub open spec fn is_assignment_for(line: Seq<char>, name: Seq<char>) -> bool {
    line.len() >= assignment_prefix(name).len() && line.subrange(
        0,
        assignment_prefix(name).len() as int,
    ) == assignment_prefix(name)
}

/// The lines of `content` that survive removing the assignment to `name`,
/// in their original order.
pub open spec fn kept_lines(content: Seq<char>, name: Seq<char>) -> Seq<Seq<char>> {
    spec_lines(content).filter(|l: Seq<char>| !is_assignment_for(l, name))
}

/// The content `unset(name)` rewrites the file to.
pub open spec fn spec_unset_content(content: Seq<char>, name: Seq<char>) -> Seq<char> {
    spec_unlines(kept_lines(content, name))
}

/// The content `set(name, value)` rewrites the file to: the kept lines plus
/// the new assignment line, sorted ascending.
pub open spec fn spec_set_content(content: Seq<char>, name: Seq<char>, value: Seq<char>) -> Seq<
    char,
> {
    spec_unlines(
        kept_lines(content, name).push(assignment_line(name, value)).sort_by(line_order()),
    )
}

/// What loading yields for a file that held `existing`, or was absent.
pub open spec fn spec_load(existing: Option<Seq<char>>) -> Seq<char> {
    match existing {
        None => spec_initial_content(),
        Some(c) => c,
    }
}

/// The name of the rc-file, relative to the user's home directory.
pub fn rc_file_name() -> (r: &'static str)
    ensures
        r@ == spec_rc_file_name(),
{
    ".syncenvrc"
}

/// The content written when the rc-file does not exist yet: a single header
/// comment line.
pub fn initial_content() -> (r: String)
    ensures
        r@ == spec_initial_content(),
{
    "# Warning: this file is managed by syncenv #\n".to_owned()
}

/// The content the store works on: what the file held, or, for an absent
/// file, the header content the file is created with.
pub fn load_content(existing: Option<String>) -> (r: String)
    ensures
        r@ == spec_load(existing.deep_view()),
{
    match existing {
        None => initial_content(),
        Some(c) => c,
    }
}

/// Builds `export <name>=`, the prefix that identifies the line for `name`.
fn make_assignment_prefix(name: &str) -> (r: String)
    ensures
        r@ == assignment_prefix(name@),
{
    let mut r = "export ".to_owned();
    r.append(name);
    r.append("=");
    proof {
        reveal_strlit("export ");
        reveal_strlit("=");
        assert("export "@ =~= export_prefix());
        assert("="@ =~= seq!['=']);
        assert(r@ =~= assignment_prefix(name@));
    }
    r
}

/// Builds the assignment line `export <name>=<value>`.
pub fn make_assignment_line(name: &str, value: &str) -> (r: String)
    ensures
        r@ == assignment_line(name@, value@),
{
    let mut r = make_assignment_prefix(name);
    r.append(value);
    r
}

/// Whether `s` opens with the characters of `p`.
fn str_has_prefix(s: &str, p: &str) -> (r: bool)
    ensures
        r == (s@.len() >= p@.len() && s@.subrange(0, p@.len() as int) == p@),
{
    let slen = s.unicode_len();
    let plen = p.unicode_len();
    if slen < plen {
        return false;
    }
    let mut i: usize = 0;
    while i < plen
        invariant
            i <= plen,
            plen <= slen,
            slen == s@.len(),
            plen == p@.len(),
            forall|j: int| 0 <= j < i ==> s@[j] == p@[j],
        decreases plen - i,
    {
        let cs = s.get_char(i) as u32;
        let cp = p.get_char(i) as u32;
        if cs != cp {
            proof {
                assert(s@.subrange(0, plen as int)[i as int] != p@[i as int]);
            }
            return false;
        }
        proof {
            vstd::utf8::char_u32_cast(s@[i as int], cs);
            vstd::utf8::char_u32_cast(p@[i as int], cp);
        }
        i += 1;
    }
    proof {
        assert(s@.subrange(0, plen as int) =~= p@);
    }
    true
}

/// Whether `line` is the assignment line for `name`.
pub fn line_assigns(line: &str, name: &str) -> (r: bool)
    ensures
        r == is_assignment_for(line@, name@),
{
    let prefix = make_assignment_prefix(name);
    str_has_prefix(line, prefix.as_str())
}

/// The lines of `content` with the assignment to `name` removed; all other
/// lines stay, in their order. Absence of the assignment is not an error:
/// the lines come back unchanged.
pub fn load_lines_except(content: &str, name: &str) -> (r: Vec<String>)
    ensures
        r.deep_view() == kept_lines(content@, name@),
{
    let lines = split_lines(content);
    let mut r: Vec<String> = Vec::new();
    let mut i: usize = 0;
    let ghost pred = |l: Seq<char>| !is_assignment_for(l, name@);
    proof {
        reveal(Seq::filter);
        assert(lines.deep_view().subrange(0, 0) =~= Seq::<Seq<char>>::empty());
        assert(r.deep_view() =~= Seq::<Seq<char>>::empty());
    }
    while i < lines.len()
        invariant
            i <= lines.len(),
            lines.deep_view() == spec_lines(content@),
            r.deep_view() == lines.deep_view().subrange(0, i as int).filter(pred),
            pred == (|l: Seq<char>| !is_assignment_for(l, name@)),
        decreases lines.len() - i,
    {
        let ghost prefix = lines.deep_view().subrange(0, i as int);
        let ghost next = lines.deep_view().subrange(0, i + 1);
        proof {
            reveal(Seq::filter);
            assert(next.drop_last() =~= prefix);
            assert(next.last() == lines.deep_view()[i as int]);
            assert(lines.deep_view()[i as int] == lines@[i as int]@);
        }
        let keep = !line_assigns(lines[i].as_str(), name);
        if keep {
            let ghost old_dv = r.deep_view();
            r.push(lines[i].clone());
            proof {
                assert(r.deep_view() =~= old_dv.push(lines@[i as int]@));
                assert(next.filter(pred) == prefix.filter(pred).push(next.last()));
            }
        } else {
            proof {
                assert(next.filter(pred) == prefix.filter(pred));
            }
        }
        i += 1;
    }
    proof {
        assert(lines.deep_view().subrange(0, lines.deep_view().len() as int) =~= lines.deep_view());
    }
    r
}

/// The full new file content after removing the assignment to `name`.
pub fn unset_content(content: &str, name: &str) -> (r: String)
    ensures
        r@ == spec_unset_content(content@, name@),
{
    let lines = load_lines_except(content, name);
    dump_lines(&lines)
}

/// The full new file content after assigning `value` to `name`: any earlier
/// line for `name` is gone, the new line is in, and the line set is sorted.
pub fn set_content(content: &str, name: &str, value: &str) -> (r: String)
    ensures
        r@ == spec_set_content(content@, name@, value@),
{
    let mut lines = load_lines_except(content, name);
    let line = make_assignment_line(name, value);
    let ghost old_dv = lines.deep_view();
    lines.push(line);
    proof {
        assert(lines.deep_view() =~= old_dv.push(assignment_line(name@, value@)));
    }
    let sorted = sort_lines(&lines);
    dump_lines(&sorted)
}

} // verus!
