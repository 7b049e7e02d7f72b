//! Which members of a group are compared with which, and how.

use crate::path::{extension, extension_of, texts_of};
use vstd::prelude::*;

verus! {

/// The ways in which two files can be compared.
#[derive(Clone, Copy, Debug, PartialEq, Eq, Structural)]
pub enum ComparisonMode {
    /// By the edit distance of their texts.
    Text,
    /// By the Hamming distance of their perceptual hashes.
    Image,
}

/// Two members of a group, by their positions in it, and the way in which
/// they are to be compared.
#[derive(Clone, Copy, Debug, PartialEq, Eq, Structural)]
pub struct Comparison {
    pub first: usize,
    pub second: usize,
    pub mode: ComparisonMode,
}

/// The way in which the file at `path` can be compared, by its extension:
/// `txt` is text, and `jpg`, `jpeg` and `png` are images.
pub open spec fn mode_of(path: Seq<char>) -> Option<ComparisonMode> {
    match extension_of(path) {
        Some(e) => if e == "txt"@ {
            Some(ComparisonMode::Text)
        } else if e == "jpg"@ || e == "jpeg"@ || e == "png"@ {
            Some(ComparisonMode::Image)
        } else {
            None
        },
        None => None,
    }
}

/// The way in which the members at `i` and `j` are compared: the one way in
/// which both can be. A text and an image are not compared.
pub open spec fn pair_mode(paths: Seq<Seq<char>>, i: int, j: int) -> Option<ComparisonMode> {
    if mode_of(paths[i]) == mode_of(paths[j]) {
        mode_of(paths[i])
    } else {
        None
    }
}

/// `a` comes before `b`: by the first member, then by the second.
pub open spec fn precedes(a: Comparison, b: Comparison) -> bool {
    a.first < b.first || (a.first == b.first && a.second < b.second)
}

/// `plan` compares the members at `i` and `j`.
pub open spec fn covers(plan: Seq<Comparison>, i: int, j: int) -> bool {
    exists|k: int| 0 <= k < plan.len() && (#[trigger] plan[k]).first == i && plan[k].second == j
}

/// `plan` is the plan for the group `paths`: it holds each pair of two
/// different members that can be compared in one way, the earlier member
/// first, with that way; it holds nothing else; and it is in order.
pub open spec fn is_plan_of(plan: Seq<Comparison>, paths: Seq<Seq<char>>) -> bool {
    &&& forall|k: int|
        0 <= k < plan.len() ==> (#[trigger] plan[k]).first < plan[k].second < paths.len()
            && pair_mode(paths, plan[k].first as int, plan[k].second as int) == Some(plan[k].mode)
    &&& forall|k: int, l: int|
        0 <= k < l < plan.len() ==> precedes(#[trigger] plan[k], #[trigger] plan[l])
    &&& forall|i: int, j: int|
        0 <= i < j < paths.len() && (#[trigger] pair_mode(paths, i, j)) is Some ==> covers(
            plan,
            i,
            j,
        )
}

/// The way in which the file at `path` can be compared, if any.
pub fn comparison_mode(path: &str) -> (mode: Option<ComparisonMode>)
    ensures
        mode == mode_of(path@),
{
    match extension(path) {
        Some(e) => {
            if e == "txt".to_owned() {
                Some(ComparisonMode::Text)
            } else if e == "jpg".to_owned() || e == "jpeg".to_owned() || e == "png".to_owned() {
                Some(ComparisonMode::Image)
            } else {
                None
            }
        },
        None => None,
    }
}

/// Plans the comparisons within a group: every pair of members that are
/// both texts or both images, each pair once.
pub fn analyze_similar_content(group: &Vec<String>) -> (plan: Vec<Comparison>)
    ensures
        is_plan_of(plan@, texts_of(group@)),
{
    let ghost paths = texts_of(group@);
    let n = group.len();
    let mut modes: Vec<Option<ComparisonMode>> = Vec::new();
    let mut m: usize = 0;
    while m < n
        invariant
            m <= n,
            n == group.len(),
            paths == texts_of(group@),
            modes.len() == m,
            forall|k: int| 0 <= k < m ==> modes[k] == mode_of(paths[k]),
        decreases n - m,
    {
        modes.push(comparison_mode(group[m].as_str()));
        m += 1;
    }
    let mut plan: Vec<Comparison> = Vec::new();
    let mut i: usize = 0;
    while i < n
        invariant
            i <= n,
            n == paths.len(),
            modes.len() == n,
            forall|k: int| 0 <= k < n ==> modes[k] == mode_of(paths[k]),
            forall|k: int|
                0 <= k < plan.len() ==> (#[trigger] plan[k]).first < plan[k].second < n
                    && plan[k].first < i && pair_mode(
                    paths,
                    plan[k].first as int,
                    plan[k].second as int,
                ) == Some(plan[k].mode),
            forall|k: int, l: int|
                0 <= k < l < plan.len() ==> precedes(#[trigger] plan[k], #[trigger] plan[l]),
            forall|a: int, b: int|
                0 <= a < b < n && a < i && (#[trigger] pair_mode(paths, a, b)) is Some ==> covers(
                    plan@,
                    a,
                    b,
                ),
        decreases n - i,
    {
        let mut j: usize = i + 1;
        while j < n
            invariant
                i < j <= n,
                n == paths.len(),
                modes.len() == n,
                forall|k: int| 0 <= k < n ==> modes[k] == mode_of(paths[k]),
                forall|k: int|
                    0 <= k < plan.len() ==> (#[trigger] plan[k]).first < plan[k].second < n && (
                    plan[k].first < i || (plan[k].first == i && plan[k].second < j)) && pair_mode(
                        paths,
                        plan[k].first as int,
                        plan[k].second as int,
                    ) == Some(plan[k].mode),
                forall|k: int, l: int|
                    0 <= k < l < plan.len() ==> precedes(#[trigger] plan[k], #[trigger] plan[l]),
                forall|a: int, b: int|
                    0 <= a < b < n && (a < i || (a == i && b < j)) && (#[trigger] pair_mode(
                        paths,
                        a,
                        b,
                    )) is Some ==> covers(plan@, a, b),
            decreases n - j,
        {
            let ghost before = plan@;
            match (modes[i], modes[j]) {
                (Some(ComparisonMode::Text), Some(ComparisonMode::Text)) => {
                    plan.push(Comparison { first: i, second: j, mode: ComparisonMode::Text });
                },
                (Some(ComparisonMode::Image), Some(ComparisonMode::Image)) => {
                    plan.push(Comparison { first: i, second: j, mode: ComparisonMode::Image });
                },
                _ => {},
            }
            proof {
                assert forall|a: int, b: int|
                    0 <= a < b < n && (a < i || (a == i && b < j + 1)) && (#[trigger] pair_mode(
                        paths,
                        a,
                        b,
                    )) is Some implies covers(plan@, a, b) by {
                    if a == i && b == j {
                        assert(plan@[plan@.len() - 1].first == i);
                    } else {
                        assert(covers(before, a, b));
                        let k = choose|k: int|
                            0 <= k < before.len() && (#[trigger] before[k]).first == a
                                && before[k].second == b;
                        assert(plan@[k] == before[k]);
                    }
                }
            }
            j += 1;
        }
        i += 1;
    }
    plan
}

/// Two plans for one group agree in their first `n` comparisons.
proof fn lemma_plans_agree(p: Seq<Comparison>, q: Seq<Comparison>, paths: Seq<Seq<char>>, n: int)
    requires
        is_plan_of(p, paths),
        is_plan_of(q, paths),
        0 <= n <= p.len(),
        n <= q.len(),
    ensures
        forall|k: int| 0 <= k < n ==> p[k] == q[k],
    decreases n,
{
    if n > 0 {
        let k = n - 1;
        lemma_plans_agree(p, q, paths, k);
        let a = p[k];
        let b = q[k];
        assert(pair_mode(paths, a.first as int, a.second as int) is Some);
        assert(pair_mode(paths, b.first as int, b.second as int) is Some);
        assert(covers(q, a.first as int, a.second as int));
        assert(covers(p, b.first as int, b.second as int));
        let l = choose|l: int|
            0 <= l < q.len() && (#[trigger] q[l]).first == a.first && q[l].second == a.second;
        let m = choose|m: int|
            0 <= m < p.len() && (#[trigger] p[m]).first == b.first && p[m].second == b.second;
        if l < k {
            assert(p[l] == q[l]);
            assert(precedes(p[l], p[k]));
        }
        if m < k {
            assert(p[m] == q[m]);
            assert(precedes(q[m], q[k]));
        }
        if l > k {
            assert(precedes(q[k], q[l]));
            if m > k {
                assert(precedes(p[k], p[m]));
            }
        }
        assert(l == k);
    }
}

/// A group has one plan only: what `is_plan_of` asks leaves nothing open.
pub proof fn lemma_plan_is_unique(p: Seq<Comparison>, q: Seq<Comparison>, paths: Seq<Seq<char>>)
    requires
        is_plan_of(p, paths),
        is_plan_of(q, paths),
    ensures
        p == q,
{
    if p.len() <= q.len() {
        lemma_plans_agree(p, q, paths, p.len() as int);
        if p.len() < q.len() {
            let extra = q[p.len() as int];
            assert(pair_mode(paths, extra.first as int, extra.second as int) is Some);
            assert(covers(p, extra.first as int, extra.second as int));
            let m = choose|m: int|
                0 <= m < p.len() && (#[trigger] p[m]).first == extra.first && p[m].second
                    == extra.second;
            assert(p[m] == q[m]);
            assert(precedes(q[m], q[p.len() as int]));
        }
    } else {
        lemma_plans_agree(p, q, paths, q.len() as int);
        let extra = p[q.len() as int];
        assert(pair_mode(paths, extra.first as int, extra.second as int) is Some);
        assert(covers(q, extra.first as int, extra.second as int));
        let m = choose|m: int|
            0 <= m < q.len() && (#[trigger] q[m]).first == extra.first && q[m].second
                == extra.second;
        assert(p[m] == q[m]);
        assert(precedes(p[m], p[q.len() as int]));
    }
    assert(p =~= q);
}

} // verus!
