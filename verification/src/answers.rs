//! Group answer tallying.
//!
//! Raw input holds groups of answer lines separated by blank lines. One
//! tally counts the distinct answers anyone in a group gave; the other
//! counts the answers every member of a group gave, by intersecting the
//! members' answer lists.

use crate::parse::{spec_split_lines, split_lines};
use array_tool::vec::Intersect;
use vstd::prelude::*;

verus! {

/// The first occurrence of each element, in order.
pub open spec fn spec_dedup_first(s: Seq<char>) -> Seq<char>
    decreases s.len(),
{
    if s.len() == 0 {
        s
    } else if s.drop_last().contains(s.last()) {
        spec_dedup_first(s.drop_last())
    } else {
        spec_dedup_first(s.drop_last()).push(s.last())
    }
}

/// The elements of `a` that occur anywhere in `b`, in order.
pub open spec fn keep_in(a: Seq<char>, b: Seq<char>) -> Seq<char>
    decreases a.len(),
{
    if a.len() == 0 {
        a
    } else if b.contains(a.last()) {
        keep_in(a.drop_last(), b).push(a.last())
    } else {
        keep_in(a.drop_last(), b)
    }
}

/// The distinct elements of `a`, in order of first appearance, that occur
/// anywhere in `b`.
pub open spec fn spec_intersect(a: Seq<char>, b: Seq<char>) -> Seq<char> {
    keep_in(spec_dedup_first(a), b)
}

/// Deduplication never lengthens a list.
pub proof fn lemma_dedup_len(s: Seq<char>)
    ensures
        spec_dedup_first(s).len() <= s.len(),
    decreases s.len(),
{
    if s.len() > 0 {
        lemma_dedup_len(s.drop_last());
    }
}

/// Keeping common elements never lengthens a list.
pub proof fn lemma_keep_in_len(a: Seq<char>, b: Seq<char>)
    ensures
        keep_in(a, b).len() <= a.len(),
    decreases a.len(),
{
    if a.len() > 0 {
        lemma_keep_in_len(a.drop_last(), b);
    }
}

/// An intersection is no longer than its left side.
pub proof fn lemma_intersect_len(a: Seq<char>, b: Seq<char>)
    ensures
        spec_intersect(a, b).len() <= a.len(),
{
    lemma_dedup_len(a);
    lemma_keep_in_len(spec_dedup_first(a), b);
}

/// Relies on `array_tool`'s vector intersection: the distinct elements of
/// `a`, in order of first appearance, that occur anywhere in `b`.
#[verifier::external_body]
fn intersect_chars(a: &Vec<char>, b: &Vec<char>) -> (r: Vec<char>)
    ensures
        r@ == spec_intersect(a@, b@),
{
    a.intersect(b.clone())
}

/// Membership in a one-longer prefix: the old prefix or the new element.
pub proof fn lemma_take_push_contains(s: Seq<char>, i: int, a: char)
    requires
        0 <= i < s.len(),
    ensures
        s.take(i + 1).contains(a) <==> (s.take(i).contains(a) || a == s[i]),
{
    if s.take(i + 1).contains(a) {
        let k = choose|k: int| 0 <= k < i + 1 && (#[trigger] s.take(i + 1)[k]) == a;
        if k < i {
            assert(s.take(i)[k] == a);
        }
    }
    if s.take(i).contains(a) {
        let k = choose|k: int| 0 <= k < i && (#[trigger] s.take(i)[k]) == a;
        assert(s.take(i + 1)[k] == a);
    }
    if a == s[i] {
        assert(s.take(i + 1)[i] == a);
    }
}

/// Whether a list of characters holds the given one.
fn contains_char(v: &Vec<char>, c: char) -> (r: bool)
    ensures
        r == v@.contains(c),
{
    let mut i: usize = 0;
    while i < v.len()
        invariant
            i <= v@.len(),
            forall|k: int| 0 <= k < i ==> v@[k] != c,
        decreases v@.len() - i,
    {
        if v[i] == c {
            return true;
        }
        i = i + 1;
    }
    false
}

/// Counts the distinct answers in one group's flattened answer list.
pub fn count_unique_answers(group_answers: &Vec<char>) -> (count: u32)
    requires
        group_answers@.len() <= u32::MAX,
    ensures
        count == group_answers@.to_set().len(),
{
    broadcast use vstd::seq_lib::group_seq_lib_default, vstd::set_lib::group_set_lib_default;

    let ghost s = group_answers@;
    let mut seen: Vec<char> = Vec::new();
    let mut i: usize = 0;
    proof {
        assert(s.take(0) =~= Seq::<char>::empty());
        assert(seen@.to_set() =~= s.take(0).to_set());
    }
    while i < group_answers.len()
        invariant
            s == group_answers@,
            i <= s.len() <= u32::MAX,
            seen@.no_duplicates(),
            seen@.len() <= i,
            seen@.to_set() == s.take(i as int).to_set(),
        decreases s.len() - i,
    {
        let c = group_answers[i];
        let ghost before = seen@;
        proof {
            assert forall|a: char| #[trigger]
                s.take(i + 1).to_set().contains(a) == (s.take(i as int).to_set().contains(a) || a
                    == s[i as int]) by {
                lemma_take_push_contains(s, i as int, a);
            }
        }
        if !contains_char(&seen, c) {
            seen.push(c);
            proof {
                assert(seen@.drop_last() =~= before);
                assert(!before.to_set().contains(c));
                assert forall|a: char| #[trigger]
                    seen@.to_set().contains(a) == (before.to_set().contains(a) || a == c) by {
                    if seen@.contains(a) {
                        let k = choose|k: int| 0 <= k < seen@.len() && (#[trigger] seen@[k]) == a;
                        if k < seen@.len() - 1 {
                            assert(before[k] == a);
                        }
                    }
                    if before.contains(a) {
                        let k = choose|k: int| 0 <= k < before.len() && (#[trigger] before[k]) == a;
                        assert(seen@[k] == a);
                    }
                    if a == c {
                        assert(seen@[seen@.len() - 1] == a);
                    }
                }
                assert(seen@.to_set() =~= s.take(i + 1).to_set());
            }
        } else {
            proof {
                assert(seen@.to_set().contains(c));
                assert(seen@.to_set() =~= s.take(i + 1).to_set());
            }
        }
        i = i + 1;
    }
    proof {
        assert(s.take(s.len() as int) =~= s);
        seen@.unique_seq_to_set();
    }
    seen.len() as u32
}

/// The state of the blank-line splitter: the groups closed so far, the
/// group being read, and whether the last character was a newline.
pub ghost struct GroupScan {
    pub groups: Seq<Seq<char>>,
    pub current: Seq<char>,
    pub pending: bool,
}

/// One splitter step: a second newline in a row closes the group; a lone
/// newline is kept back and re-joins the group when no second one follows.
pub open spec fn group_scan_step(st: GroupScan, c: char) -> GroupScan {
    if st.pending {
        if c == '\n' {
            GroupScan { groups: st.groups.push(st.current), current: Seq::empty(), pending: false }
        } else {
            GroupScan { current: st.current.push('\n').push(c), pending: false, ..st }
        }
    } else {
        if c == '\n' {
            GroupScan { pending: true, ..st }
        } else {
            GroupScan { current: st.current.push(c), ..st }
        }
    }
}

/// The splitter's state after the first `i` characters.
pub open spec fn group_scan(s: Seq<char>, i: nat) -> GroupScan
    decreases i,
{
    if i == 0 {
        GroupScan { groups: Seq::empty(), current: Seq::empty(), pending: false }
    } else {
        group_scan_step(group_scan(s, (i - 1) as nat), s[i - 1])
    }
}

/// The groups of the raw input, split at blank lines, exactly as
/// splitting on a double newline gives them.
pub open spec fn spec_groups(s: Seq<char>) -> Seq<Seq<char>> {
    let st = group_scan(s, s.len() as nat);
    st.groups.push(
        if st.pending {
            st.current.push('\n')
        } else {
            st.current
        },
    )
}

/// Splits the raw input into its blank-line-separated groups.
pub fn split_groups(input_file: &Vec<char>) -> (groups: Vec<Vec<char>>)
    ensures
        groups.deep_view() == spec_groups(input_file@),
{
    let ghost s = input_file@;
    let mut groups: Vec<Vec<char>> = Vec::new();
    let mut current: Vec<char> = Vec::new();
    let mut pending = false;
    let mut i: usize = 0;
    while i < input_file.len()
        invariant
            s == input_file@,
            i <= s.len(),
            ({
                let st = group_scan(s, i as nat);
                &&& groups.deep_view() == st.groups
                &&& current@ == st.current
                &&& pending == st.pending
            }),
        decreases s.len() - i,
    {
        let c = input_file[i];
        let ghost gs_before = groups.deep_view();
        if pending {
            if c == '\n' {
                groups.push(current);
                current = Vec::new();
                pending = false;
                proof {
                    assert(groups.deep_view() =~~= gs_before.push(group_scan(s, i as nat).current));
                }
            } else {
                current.push('\n');
                current.push(c);
                pending = false;
            }
        } else {
            if c == '\n' {
                pending = true;
            } else {
                current.push(c);
            }
        }
        i = i + 1;
    }
    let ghost gs_before = groups.deep_view();
    if pending {
        current.push('\n');
    }
    groups.push(current);
    proof {
        assert(groups.deep_view() =~~= spec_groups(s));
    }
    groups
}

/// A list of characters with its newlines taken out.
pub open spec fn strip_newlines(s: Seq<char>) -> Seq<char>
    decreases s.len(),
{
    if s.len() == 0 {
        s
    } else if s.last() == '\n' {
        strip_newlines(s.drop_last())
    } else {
        strip_newlines(s.drop_last()).push(s.last())
    }
}

/// Takes the newlines out of one list.
fn strip_newlines_exec(s: &Vec<char>) -> (r: Vec<char>)
    ensures
        r@ == strip_newlines(s@),
{
    let mut r: Vec<char> = Vec::new();
    let mut i: usize = 0;
    proof {
        assert(s@.take(0) =~= Seq::<char>::empty());
    }
    while i < s.len()
        invariant
            i <= s@.len(),
            r@ == strip_newlines(s@.take(i as int)),
        decreases s@.len() - i,
    {
        proof {
            assert(s@.take(i + 1).drop_last() =~= s@.take(i as int));
        }
        if s[i] != '\n' {
            r.push(s[i]);
        }
        i = i + 1;
    }
    proof {
        assert(s@.take(s@.len() as int) =~= s@);
    }
    r
}

/// Splits the raw input into groups and flattens each to its answer
/// characters, newlines removed.
pub fn format_groups_flattened(input_file: &Vec<char>) -> (r: Vec<Vec<char>>)
    ensures
        r.deep_view() == spec_groups(input_file@).map(|_i: int, g: Seq<char>| strip_newlines(g)),
{
    let groups = split_groups(input_file);
    let ghost gs = spec_groups(input_file@);
    let mut r: Vec<Vec<char>> = Vec::new();
    let mut i: usize = 0;
    while i < groups.len()
        invariant
            groups.deep_view() == gs,
            groups@.len() == gs.len(),
            i <= gs.len(),
            r.deep_view().len() == i,
            forall|k: int| 0 <= k < i ==> #[trigger] r.deep_view()[k] == strip_newlines(gs[k]),
        decreases gs.len() - i,
    {
        proof {
            assert(groups@[i as int].deep_view() =~= groups@[i as int]@);
        }
        let stripped = strip_newlines_exec(&groups[i]);
        let ghost rs_before = r.deep_view();
        r.push(stripped);
        proof {
            assert(r.deep_view() =~~= rs_before.push(stripped@));
        }
        i = i + 1;
    }
    proof {
        assert(r.deep_view() =~~= gs.map(|_i: int, g: Seq<char>| strip_newlines(g)));
    }
    r
}

/// Splits the raw input into groups and each group into its answer lines.
pub fn format_groups(input_file: &Vec<char>) -> (r: Vec<Vec<Vec<char>>>)
    ensures
        r.deep_view() == spec_groups(input_file@).map(|_i: int, g: Seq<char>| spec_split_lines(g)),
{
    let groups = split_groups(input_file);
    let ghost gs = spec_groups(input_file@);
    let mut r: Vec<Vec<Vec<char>>> = Vec::new();
    let mut i: usize = 0;
    while i < groups.len()
        invariant
            groups.deep_view() == gs,
            groups@.len() == gs.len(),
            i <= gs.len(),
            r.deep_view().len() == i,
            forall|k: int| 0 <= k < i ==> #[trigger] r.deep_view()[k] == spec_split_lines(gs[k]),
        decreases gs.len() - i,
    {
        proof {
            assert(groups@[i as int].deep_view() =~= groups@[i as int]@);
        }
        let lines = split_lines(&groups[i]);
        let ghost rs_before = r.deep_view();
        r.push(lines);
        proof {
            assert(r.deep_view() =~~= rs_before.push(lines.deep_view()));
        }
        i = i + 1;
    }
    proof {
        assert(r.deep_view() =~~= gs.map(|_i: int, g: Seq<char>| spec_split_lines(g)));
    }
    r
}

/// The running intersection after folding the first `k` members' answers
/// into the first member's.
pub open spec fn unanimous_fold(groups: Seq<Seq<char>>, k: nat) -> Seq<char>
    recommends
        groups.len() >= 1,
    decreases k,
{
    if k == 0 {
        groups[0]
    } else {
        spec_intersect(unanimous_fold(groups, (k - 1) as nat), groups[k - 1])
    }
}

/// A fold step never lengthens the running intersection.
pub proof fn lemma_unanimous_fold_len(groups: Seq<Seq<char>>, k: nat)
    ensures
        unanimous_fold(groups, k).len() <= groups[0].len(),
    decreases k,
{
    if k > 0 {
        lemma_unanimous_fold_len(groups, (k - 1) as nat);
        lemma_intersect_len(unanimous_fold(groups, (k - 1) as nat), groups[k - 1]);
    }
}

/// Counts the answers that every member of a group gave: the length of the
/// members' answer lists intersected in turn, starting from the first
/// member's list — or zero for an empty group.
pub fn count_unanimous_answers(group_answers: &Vec<Vec<char>>) -> (count: u32)
    requires
        group_answers@.len() > 0 ==> group_answers.deep_view()[0].len() <= u32::MAX,
    ensures
        count == if group_answers@.len() == 0 {
            0int
        } else {
            unanimous_fold(group_answers.deep_view(), group_answers@.len() as nat).len() as int
        },
{
    if group_answers.len() == 0 {
        return 0;
    }
    let ghost gs = group_answers.deep_view();
    proof {
        assert(group_answers@[0].deep_view() =~= group_answers@[0]@);
    }
    let mut unanimous: Vec<char> = Vec::new();
    let first = &group_answers[0];
    let mut j: usize = 0;
    while j < first.len()
        invariant
            j <= first@.len(),
            unanimous@ == first@.take(j as int),
        decreases first@.len() - j,
    {
        unanimous.push(first[j]);
        proof {
            assert(first@.take(j + 1) =~= first@.take(j as int).push(first@[j as int]));
        }
        j = j + 1;
    }
    proof {
        assert(first@.take(first@.len() as int) =~= first@);
        assert(unanimous@ == unanimous_fold(gs, 0));
    }
    let mut i: usize = 0;
    while i < group_answers.len()
        invariant
            gs == group_answers.deep_view(),
            gs.len() >= 1,
            gs[0].len() <= u32::MAX,
            i <= gs.len(),
            unanimous@ == unanimous_fold(gs, i as nat),
        decreases gs.len() - i,
    {
        proof {
            assert(group_answers@[i as int].deep_view() =~= group_answers@[i as int]@);
        }
        unanimous = intersect_chars(&unanimous, &group_answers[i]);
        i = i + 1;
    }
    proof {
        lemma_unanimous_fold_len(gs, gs.len() as nat);
    }
    unanimous.len() as u32
}

} // verus!
