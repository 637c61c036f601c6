//! Alignment of two lists of identifiers by an edit script.

use vstd::prelude::*;

verus! {

/// One step of an edit script that turns a left list into a right one.
#[derive(Clone, Copy, PartialEq, Eq, Structural, Debug)]
pub enum Step {
    /// The next left element has no counterpart on the right.
    Left,
    /// The next left element and the next right element are matched.
    Both,
    /// The next right element has no counterpart on the left.
    Right,
}

/// How many left elements the script consumes.
pub open spec fn lefts(s: Seq<Step>) -> nat
    decreases s.len(),
{
    if s.len() == 0 {
        0
    } else {
        lefts(s.drop_last()) + if s.last() == Step::Right { 0nat } else { 1nat }
    }
}

/// How many right elements the script consumes.
pub open spec fn rights(s: Seq<Step>) -> nat
    decreases s.len(),
{
    if s.len() == 0 {
        0
    } else {
        rights(s.drop_last()) + if s.last() == Step::Left { 0nat } else { 1nat }
    }
}

/// How many pairs the script matches.
pub open spec fn matched(s: Seq<Step>) -> nat
    decreases s.len(),
{
    if s.len() == 0 {
        0
    } else {
        matched(s.drop_last()) + if s.last() == Step::Both { 1nat } else { 0nat }
    }
}

/// The script walks both lists to their ends and matches only equal
/// elements.
pub open spec fn aligns(s: Seq<Step>, left: Seq<u32>, right: Seq<u32>) -> bool {
    &&& lefts(s) == left.len()
    &&& rights(s) == right.len()
    &&& forall|p: int|
        0 <= p < s.len() && #[trigger] s[p] == Step::Both ==> left[lefts(s.take(p)) as int]
            == right[rights(s.take(p)) as int]
}

/// No script that aligns the two lists matches more pairs than `s` does.
pub open spec fn maximal(s: Seq<Step>, left: Seq<u32>, right: Seq<u32>) -> bool {
    forall|t: Seq<Step>| #[trigger] aligns(t, left, right) ==> matched(t) <= matched(s)
}

/// The two lists are short enough to be aligned: a table of four-byte
/// cells, one for every pair of prefixes, can be allocated, and so can a
/// script that is given room for the longer list and grows from there.
pub open spec fn diffable(left_len: nat, right_len: nat) -> bool {
    &&& (left_len + 1) * (right_len + 1) * 4 <= isize::MAX
    &&& left_len * 64 <= isize::MAX
    &&& right_len * 64 <= isize::MAX
}

/// The script that `diff::slice` computes for two lists.
pub uninterp spec fn diff_script(left: Seq<u32>, right: Seq<u32>) -> Seq<Step>;

/// Calls `diff::slice` and keeps of each fragment which side it stands for.
/// The crate documents itself as based on longest common subsequences: the
/// script walks both lists in order, pairs only equal elements, and pairs as
/// many as any script can. Which of several such scripts comes out is left
/// to the name `diff_script`. The bound keeps the table of counts and the
/// script that `diff::slice` allocates within what a vector can hold.
#[verifier::external_body]
pub(crate) fn diff_steps(left: &Vec<u32>, right: &Vec<u32>) -> (steps: Vec<Step>)
    requires
        diffable(left@.len(), right@.len()),
    ensures
        steps@ == diff_script(left@, right@),
        aligns(steps@, left@, right@),
        maximal(steps@, left@, right@),
{
    diff::slice(left, right)
        .into_iter()
        .map(
            |r| match r {
                diff::Result::Left(_) => Step::Left,
                diff::Result::Both(_, _) => Step::Both,
                diff::Result::Right(_) => Step::Right,
            },
        )
        .collect()
}

/// Whether two lists of the given lengths are short enough to be aligned.
pub fn is_diffable(left_len: usize, right_len: usize) -> (r: bool)
    ensures
        r == diffable(left_len as nat, right_len as nat),
{
    let limit: usize = isize::MAX as usize;
    if left_len > limit / 64 || right_len > limit / 64 {
        return false;
    }
    let cells = match (left_len + 1).checked_mul(right_len + 1) {
        Some(cells) => cells,
        None => {
            assert(!diffable(left_len as nat, right_len as nat)) by (nonlinear_arith)
                requires
                    (left_len + 1) * (right_len + 1) > usize::MAX,
                    isize::MAX < usize::MAX,
            ;
            return false;
        },
    };
    cells <= limit / 4
}

/// The script of two lists, where they are short enough to have one.
pub fn align_ids(left: &Vec<u32>, right: &Vec<u32>) -> (steps: Option<Vec<Step>>)
    ensures
        steps is Some <==> diffable(left@.len(), right@.len()),
        steps matches Some(s) ==> s@ == diff_script(left@, right@) && aligns(s@, left@, right@)
            && maximal(s@, left@, right@),
        faithful(left@, right@),
{
    if is_diffable(left.len(), right.len()) {
        Some(diff_steps(left, right))
    } else {
        None
    }
}

/// Taking one more step of a script consumes what that step stands for.
pub proof fn lemma_take_step(s: Seq<Step>, p: int)
    requires
        0 <= p < s.len(),
    ensures
        lefts(s.take(p + 1)) == lefts(s.take(p)) + if s[p] == Step::Right { 0nat } else { 1nat },
        rights(s.take(p + 1)) == rights(s.take(p)) + if s[p] == Step::Left { 0nat } else { 1nat },
        matched(s.take(p + 1)) == matched(s.take(p)) + if s[p] == Step::Both { 1nat } else { 0nat },
{
    assert(s.take(p + 1).drop_last() =~= s.take(p));
    assert(s.take(p + 1).last() == s[p]);
}

/// A prefix of a script consumes no more than the whole script.
pub proof fn lemma_prefix_counts(s: Seq<Step>, p: int)
    requires
        0 <= p <= s.len(),
    ensures
        lefts(s.take(p)) <= lefts(s),
        rights(s.take(p)) <= rights(s),
        matched(s.take(p)) <= matched(s),
    decreases s.len() - p,
{
    if p == s.len() {
        assert(s.take(p) =~= s);
    } else {
        lemma_take_step(s, p);
        lemma_prefix_counts(s, p + 1);
    }
}

/// The script that stands behind the name `diff_script` for these two
/// lists is what the call of `diff::slice` is trusted to return: where the
/// lists can be aligned, a script that aligns them and matches as many
/// pairs as any.
pub open spec fn faithful(left: Seq<u32>, right: Seq<u32>) -> bool {
    diffable(left.len(), right.len()) ==> aligns(diff_script(left, right), left, right)
        && maximal(diff_script(left, right), left, right)
}

/// The script of `n` matched pairs.
pub open spec fn all_both(n: nat) -> Seq<Step> {
    Seq::new(n, |i: int| Step::Both)
}

/// A script matches no more pairs than it consumes elements on either
/// side, and each step consumes on one side or matches.
pub proof fn lemma_counts(s: Seq<Step>)
    ensures
        matched(s) <= lefts(s),
        matched(s) <= rights(s),
        lefts(s) + rights(s) == s.len() + matched(s),
    decreases s.len(),
{
    if s.len() > 0 {
        lemma_counts(s.drop_last());
    }
}

/// A script that matches a pair at every step consists of `Both` alone.
pub proof fn lemma_all_matched(s: Seq<Step>)
    requires
        matched(s) == s.len(),
    ensures
        s == all_both(s.len()),
    decreases s.len(),
{
    if s.len() > 0 {
        lemma_counts(s.drop_last());
        lemma_all_matched(s.drop_last());
        assert(s =~= s.drop_last().push(s.last()));
    }
    assert(s =~= all_both(s.len()));
}

/// The script of `n` matched pairs consumes `n` elements on each side.
pub proof fn lemma_all_both_counts(n: nat)
    ensures
        lefts(all_both(n)) == n,
        rights(all_both(n)) == n,
        matched(all_both(n)) == n,
    decreases n,
{
    if n > 0 {
        lemma_all_both_counts((n - 1) as nat);
        assert(all_both(n).drop_last() =~= all_both((n - 1) as nat));
    }
}

/// The script of matched pairs aligns a list with itself.
pub proof fn lemma_all_both_aligns(a: Seq<u32>)
    ensures
        aligns(all_both(a.len()), a, a),
{
    let t = all_both(a.len());
    lemma_all_both_counts(a.len());
    assert forall|p: int| 0 <= p < t.len() && #[trigger] t[p] == Step::Both implies a[lefts(
        t.take(p),
    ) as int] == a[rights(t.take(p)) as int] by {
        assert(t.take(p) =~= all_both(p as nat));
        lemma_all_both_counts(p as nat);
    }
}

/// A script that aligns a list with itself and matches as many pairs as
/// any matches every element with itself.
pub proof fn lemma_script_of_equal_lists(s: Seq<Step>, a: Seq<u32>)
    requires
        aligns(s, a, a),
        maximal(s, a, a),
    ensures
        s == all_both(a.len()),
{
    lemma_all_both_aligns(a);
    lemma_all_both_counts(a.len());
    lemma_counts(s);
    lemma_all_matched(s);
}

} // verus!
