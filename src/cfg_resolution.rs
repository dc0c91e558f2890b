//! Recognition of loops, conditionals, breaks and continues in the evaluated
//! block graph.
use vstd::prelude::*;

use crate::blocks::BasicBlockToken;
use crate::defs::{duplicate_instr, duplicate_item, same_instr, same_item, Instr, StackItem};
use crate::symbolic_evaluation::{AnnotatedBlock, AnnotatedMap, ConditionKind, ConditionalJump, ControlFlowTag};

verus! {

/// The structural role of a block in the recovered source.
#[derive(Debug)]
pub enum PseudoASTTag {
    /// The statements are followed by those of the given block.
    FallsThrough(BasicBlockToken),
    Breaks,
    Continues,
    WhileHead { jump: ConditionalJump, body: BasicBlockToken, falls_through_to: BasicBlockToken },
    BareIf { jump: ConditionalJump, body: BasicBlockToken, falls_through_to: BasicBlockToken },
    IfElse {
        jump: ConditionalJump,
        body: BasicBlockToken,
        else_branch: BasicBlockToken,
        falls_through_to: BasicBlockToken,
    },
    ForLoop { body: BasicBlockToken, falls_through_to: BasicBlockToken, assignment: Instr },
    Returns(StackItem),
    /// The statements are emitted in place, at the join of an if-else.
    Passes,
}

/// A block with its statements and its structural role.
#[derive(Debug)]
pub struct ResolvedBlock {
    pub body: Vec<Instr>,
    pub ast_tag: PseudoASTTag,
}

/// The resolved graph: slot `t` holds the resolved block that starts at `t`.
pub type ResolvedMap = Vec<Option<ResolvedBlock>>;

/// What a graph search looks for.
#[derive(Debug, Clone, Copy, PartialEq, Eq, Structural)]
pub enum SearchPred {
    /// A block that jumps back to the given block.
    JumpsBackTo(usize),
    /// A block that jumps forward, or falls through, to the given block.
    JoinsAt(usize),
    /// A block that jumps forward to a block that is also joined from the
    /// given start.
    ForwardJoin(usize),
}

/// The tag of slot `t`, when it is filled.
pub open spec fn tag_at(g: Seq<Option<AnnotatedBlock>>, t: int) -> Option<ControlFlowTag> {
    if 0 <= t < g.len() && g[t] is Some { Some(g[t]->0.cf_tag) } else { None }
}

/// Whether the filled slot `t` jumps back to `h`.
pub open spec fn jumps_back_to(g: Seq<Option<AnnotatedBlock>>, t: int, h: int) -> bool {
    tag_at(g, t) matches Some(ControlFlowTag::JumpBack(x)) && x.0 == h
}

/// Whether the filled slot `t` jumps forward to `j`.
pub open spec fn jumps_forward_to(g: Seq<Option<AnnotatedBlock>>, t: int, j: int) -> bool {
    tag_at(g, t) matches Some(ControlFlowTag::JumpForward(x)) && x.0 == j
}

/// Whether the filled slot `t` jumps forward or falls through to `j`.
pub open spec fn joins_at(g: Seq<Option<AnnotatedBlock>>, t: int, j: int) -> bool {
    jumps_forward_to(g, t, j) || (tag_at(g, t) matches Some(ControlFlowTag::FallsThrough(x)) && x.0 == j)
}

/// What a search result is known to satisfy.
pub open spec fn satisfies(p: SearchPred, g: Seq<Option<AnnotatedBlock>>, t: int) -> bool {
    match p {
        SearchPred::JumpsBackTo(h) => jumps_back_to(g, t, h as int),
        SearchPred::JoinsAt(j) => joins_at(g, t, j as int),
        SearchPred::ForwardJoin(_) => tag_at(g, t) matches Some(ControlFlowTag::JumpForward(x))
            && exists|k: int| 0 <= k < g.len() && #[trigger] joins_at(g, k, x.0 as int),
    }
}

/// The nesting rank of a predicate: a forward join runs an inner search.
pub open spec fn rank(p: SearchPred) -> nat {
    if p is ForwardJoin { 1 } else { 0 }
}

/// How many entries of `s` are still unset.
pub open spec fn falses(s: Seq<bool>) -> nat
    decreases s.len(),
{
    if s.len() == 0 {
        0
    } else {
        falses(s.drop_last()) + if !s.last() { 1nat } else { 0nat }
    }
}

proof fn lemma_falses_set(s: Seq<bool>, i: int)
    requires
        0 <= i < s.len(),
        !s[i],
    ensures
        falses(s.update(i, true)) + 1 == falses(s),
    decreases s.len(),
{
    let u = s.update(i, true);
    if i < s.len() - 1 {
        assert(u.drop_last() =~= s.drop_last().update(i, true));
        lemma_falses_set(s.drop_last(), i);
    } else {
        assert(u.drop_last() =~= s.drop_last());
    }
}

proof fn lemma_falses_bound(s: Seq<bool>)
    ensures
        falses(s) <= s.len(),
    decreases s.len(),
{
    if s.len() > 0 {
        lemma_falses_bound(s.drop_last());
    }
}

/// A search result as an index.
pub open spec fn found_at(r: Option<usize>) -> Option<int> {
    match r {
        Some(t) => Some(t as int),
        None => None,
    }
}

/// `n` unset flags.
pub open spec fn no_flags(n: nat) -> Seq<bool> {
    Seq::new(n, |i: int| false)
}

/// The blocks that a search moves on to from slot `t`, in the order it tries
/// them: a jump back and a return lead nowhere.
pub open spec fn next_of(g: Seq<Option<AnnotatedBlock>>, t: int) -> (Option<int>, Option<int>) {
    match tag_at(g, t) {
        Some(ControlFlowTag::FallsThrough(x)) => (Some(x.0 as int), None),
        Some(ControlFlowTag::JumpForward(x)) => (Some(x.0 as int), None),
        Some(ControlFlowTag::ConditionalJump { met, otherwise, .. }) => (Some(met.0 as int), Some(otherwise.0 as int)),
        Some(ControlFlowTag::ForIter { found, exhausted, .. }) => (Some(found.0 as int), Some(exhausted.0 as int)),
        _ => (None, None),
    }
}

/// Whether slot `t` is what `p` looks for; a forward join runs a fresh
/// search from the other branch.
pub open spec fn holds(p: SearchPred, g: Seq<Option<AnnotatedBlock>>, t: int) -> bool
    decreases rank(p), 0nat, 0nat,
{
    match p {
        SearchPred::JumpsBackTo(h) => jumps_back_to(g, t, h as int),
        SearchPred::JoinsAt(j) => joins_at(g, t, j as int),
        SearchPred::ForwardJoin(other) => match tag_at(g, t) {
            Some(ControlFlowTag::JumpForward(x)) => dfs(g, SearchPred::JoinsAt(x.0), other as int, no_flags(g.len())).0 is Some,
            _ => false,
        },
    }
}

/// Depth-first search from `start` for a block where `p` holds, skipping and
/// then marking the blocks in `seen`: the first block found, with the marks
/// after the search.
pub open spec fn dfs(g: Seq<Option<AnnotatedBlock>>, p: SearchPred, start: int, seen: Seq<bool>) -> (Option<int>, Seq<bool>)
    decreases rank(p), falses(seen), 1nat
    via dfs_decreases
{
    if !(0 <= start < g.len()) || !(0 <= start < seen.len()) || seen[start] {
        (None, seen)
    } else {
        let s1 = seen.update(start, true);
        if holds(p, g, start) {
            (Some(start), s1)
        } else {
            let (r1, s2) = match next_of(g, start).0 {
                Some(a) => dfs(g, p, a, s1),
                None => (None, s1),
            };
            if r1 is Some {
                (r1, s2)
            } else {
                match next_of(g, start).1 {
                    Some(b) => if falses(s2) <= falses(s1) { dfs(g, p, b, s2) } else { (None, s2) },
                    None => (None, s2),
                }
            }
        }
    }
}

#[via_fn]
proof fn dfs_decreases(g: Seq<Option<AnnotatedBlock>>, p: SearchPred, start: int, seen: Seq<bool>) {
    if 0 <= start < seen.len() && !seen[start] {
        lemma_falses_set(seen, start);
    }
}

/// Whether search moves from slot `x` on to slot `y`.
pub open spec fn next_step(g: Seq<Option<AnnotatedBlock>>, x: int, y: int) -> bool {
    next_of(g, x).0 == Some(y) || next_of(g, x).1 == Some(y)
}

/// Whether `p` is a walk of the graph from `p[0]` that follows forward
/// jumps, fall-throughs and both branches of conditionals and for-loops,
/// but no jump back.
pub open spec fn is_walk(g: Seq<Option<AnnotatedBlock>>, p: Seq<int>) -> bool {
    &&& p.len() > 0
    &&& forall|i: int| 0 <= i < p.len() ==> 0 <= #[trigger] p[i] < g.len()
    &&& forall|i: int| 0 <= i < p.len() - 1 ==> next_step(g, #[trigger] p[i], p[i + 1])
}

proof fn lemma_falses_mono(a: Seq<bool>, b: Seq<bool>)
    requires
        a.len() == b.len(),
        forall|i: int| 0 <= i < a.len() && #[trigger] a[i] ==> b[i],
    ensures
        falses(b) <= falses(a),
    decreases a.len(),
{
    if a.len() > 0 {
        lemma_falses_mono(a.drop_last(), b.drop_last());
    }
}

/// What a search leaves: marks only grow, the start is marked, and when
/// nothing is found every block it newly marked fails the predicate and has
/// its successors marked; a block it returns satisfies the predicate.
proof fn lemma_dfs_closed(g: Seq<Option<AnnotatedBlock>>, p: SearchPred, start: int, seen: Seq<bool>)
    requires
        seen.len() == g.len(),
    ensures
        dfs(g, p, start, seen).1.len() == seen.len(),
        forall|i: int| 0 <= i < seen.len() && #[trigger] seen[i] ==> dfs(g, p, start, seen).1[i],
        0 <= start < g.len() ==> dfs(g, p, start, seen).1[start],
        dfs(g, p, start, seen).0 matches Some(t) ==> holds(p, g, t),
        dfs(g, p, start, seen).0 is None ==> forall|x: int|
            0 <= x < g.len() && #[trigger] dfs(g, p, start, seen).1[x] && !seen[x] ==> !holds(p, g, x) && forall|y: int|
                0 <= y < g.len() && next_step(g, x, y) ==> dfs(g, p, start, seen).1[y],
    decreases rank(p), falses(seen), 1nat,
{
    if !(0 <= start < g.len()) || !(0 <= start < seen.len()) || seen[start] {
    } else {
        let s1 = seen.update(start, true);
        lemma_falses_set(seen, start);
        if holds(p, g, start) {
        } else {
            let (a, b) = next_of(g, start);
            let (r1, s2) = match a {
                Some(x) => dfs(g, p, x, s1),
                None => (None, s1),
            };
            if let Some(x) = a {
                lemma_dfs_closed(g, p, x, s1);
            }
            assert(s2.len() == s1.len());
            assert forall|i: int| 0 <= i < seen.len() && #[trigger] seen[i] implies s2[i] by {
                assert(s1[i]);
            }
            assert(s1[start]);
            assert(s2[start]);
            if r1 is None {
                if let Some(y) = b {
                    assert forall|i: int| 0 <= i < s1.len() && #[trigger] s1[i] implies s2[i] by {}
                    lemma_falses_mono(s1, s2);
                    lemma_dfs_closed(g, p, y, s2);
                    assert(dfs(g, p, start, seen) == dfs(g, p, y, s2));
                } else {
                    assert(dfs(g, p, start, seen) == (None::<int>, s2));
                }
            } else {
                assert(dfs(g, p, start, seen) == (r1, s2));
            }
        }
    }
}

/// A search from `start` finds a block exactly when some block that
/// satisfies the predicate can be reached from `start` on a walk that
/// crosses no jump back; what it finds satisfies the predicate.
pub proof fn lemma_search_finds_reachable(g: Seq<Option<AnnotatedBlock>>, p: SearchPred, start: int)
    requires
        0 <= start < g.len(),
    ensures
        dfs(g, p, start, no_flags(g.len())).0 matches Some(t) ==> holds(p, g, t),
        dfs(g, p, start, no_flags(g.len())).0 is None <==> !exists|w: Seq<int>|
            #[trigger] is_walk(g, w) && w[0] == start && holds(p, g, w.last()),
{
    let seen = no_flags(g.len());
    lemma_dfs_closed(g, p, start, seen);
    let s2 = dfs(g, p, start, seen).1;
    if dfs(g, p, start, seen).0 is None {
        assert forall|w: Seq<int>| #[trigger] is_walk(g, w) && w[0] == start implies !holds(p, g, w.last()) by {
            assert forall|i: int| 0 <= i < w.len() implies s2[w[i]] && !holds(p, g, w[i]) by {
                lemma_walk_marked(g, p, start, w, i);
            }
        }
    } else {
        let t = dfs(g, p, start, seen).0->0;
        lemma_dfs_found_walk(g, p, start, seen);
    }
}

proof fn lemma_walk_prepend(g: Seq<Option<AnnotatedBlock>>, x: int, w: Seq<int>)
    requires
        0 <= x < g.len(),
        is_walk(g, w),
        next_step(g, x, w[0]),
    ensures
        is_walk(g, seq![x] + w),
        (seq![x] + w)[0] == x,
        (seq![x] + w).last() == w.last(),
{
    let v = seq![x] + w;
    assert forall|i: int| 0 <= i < v.len() - 1 implies next_step(g, #[trigger] v[i], v[i + 1]) by {
        if i > 0 {
            assert(v[i] == w[i - 1] && v[i + 1] == w[i]);
        }
    }
    assert forall|i: int| 0 <= i < v.len() implies 0 <= #[trigger] v[i] < g.len() by {
        if i > 0 {
            assert(v[i] == w[i - 1]);
        }
    }
}

proof fn lemma_dfs_found_walk(g: Seq<Option<AnnotatedBlock>>, p: SearchPred, start: int, seen: Seq<bool>)
    requires
        seen.len() == g.len(),
    ensures
        dfs(g, p, start, seen).0 matches Some(t) ==> exists|w: Seq<int>|
            #[trigger] is_walk(g, w) && w[0] == start && w.last() == t,
    decreases rank(p), falses(seen), 1nat,
{
    if !(0 <= start < g.len()) || !(0 <= start < seen.len()) || seen[start] {
    } else {
        let s1 = seen.update(start, true);
        lemma_falses_set(seen, start);
        if holds(p, g, start) {
            let w = seq![start];
            assert(is_walk(g, w));
        } else {
            let (a, b) = next_of(g, start);
            let (r1, s2) = match a {
                Some(x) => dfs(g, p, x, s1),
                None => (None, s1),
            };
            if let Some(x) = a {
                lemma_dfs_found_walk(g, p, x, s1);
                lemma_dfs_closed(g, p, x, s1);
                if let Some(t) = r1 {
                    let w = choose|w: Seq<int>| #[trigger] is_walk(g, w) && w[0] == x && w.last() == t;
                    lemma_walk_prepend(g, start, w);
                }
            }
            if r1 is None {
                if let Some(y) = b {
                    lemma_falses_mono(s1, s2);
                    lemma_dfs_found_walk(g, p, y, s2);
                    if let Some(t) = dfs(g, p, y, s2).0 {
                        let w = choose|w: Seq<int>| #[trigger] is_walk(g, w) && w[0] == y && w.last() == t;
                        lemma_walk_prepend(g, start, w);
                    }
                }
            }
        }
    }
}

proof fn lemma_walk_marked(g: Seq<Option<AnnotatedBlock>>, p: SearchPred, start: int, w: Seq<int>, i: int)
    requires
        0 <= start < g.len(),
        dfs(g, p, start, no_flags(g.len())).0 is None,
        is_walk(g, w),
        w[0] == start,
        0 <= i < w.len(),
    ensures
        dfs(g, p, start, no_flags(g.len())).1[w[i]],
        !holds(p, g, w[i]),
    decreases i,
{
    let seen = no_flags(g.len());
    lemma_dfs_closed(g, p, start, seen);
    if i > 0 {
        lemma_walk_marked(g, p, start, w, i - 1);
        assert(next_step(g, w[i - 1], w[i]));
    }
    assert(!seen[w[i]]);
}

/// Depth-first walk from `start` that marks in `out` each block joining
/// `target` (by a forward jump or a fall-through) and does not go past it:
/// the marks of visited blocks and of joining blocks after the walk.
pub open spec fn elses(
    g: Seq<Option<AnnotatedBlock>>,
    start: int,
    target: int,
    seen: Seq<bool>,
    out: Seq<bool>,
) -> (Seq<bool>, Seq<bool>)
    decreases falses(seen)
    via elses_decreases
{
    if !(0 <= start < g.len()) || !(0 <= start < seen.len()) || seen[start] {
        (seen, out)
    } else {
        let s1 = seen.update(start, true);
        if joins_at(g, start, target) {
            (s1, out.update(start, true))
        } else {
            let (s2, o2) = match next_of(g, start).0 {
                Some(a) => elses(g, a, target, s1, out),
                None => (s1, out),
            };
            match next_of(g, start).1 {
                Some(b) => if falses(s2) <= falses(s1) { elses(g, b, target, s2, o2) } else { (s2, o2) },
                None => (s2, o2),
            }
        }
    }
}

#[via_fn]
proof fn elses_decreases(g: Seq<Option<AnnotatedBlock>>, start: int, target: int, seen: Seq<bool>, out: Seq<bool>) {
    if 0 <= start < seen.len() && !seen[start] {
        lemma_falses_set(seen, start);
    }
}

/// The join of a conditional with branches `met` and `otherwise`: the target
/// of the first forward jump, searched from `met` and then from `otherwise`,
/// whose target the other branch also reaches.
pub open spec fn join_of(g: Seq<Option<AnnotatedBlock>>, met: int, otherwise: int) -> Option<int> {
    let k = match dfs(g, SearchPred::ForwardJoin(otherwise as usize), met, no_flags(g.len())).0 {
        Some(k) => Some(k),
        None => dfs(g, SearchPred::ForwardJoin(met as usize), otherwise, no_flags(g.len())).0,
    };
    match k {
        Some(k) => match tag_at(g, k) {
            Some(ControlFlowTag::JumpForward(x)) => Some(x.0 as int),
            _ => None,
        },
        None => None,
    }
}

/// A vector of `n` unset flags.
fn unset_flags(n: usize) -> (r: Vec<bool>)
    ensures
        r@.len() == n,
        forall|i: int| 0 <= i < n ==> !(#[trigger] r@[i]),
        r@ == no_flags(n as nat),
{
    let mut v: Vec<bool> = Vec::new();
    while v.len() < n
        invariant
            v@.len() <= n,
            forall|i: int| 0 <= i < v@.len() ==> !(#[trigger] v@[i]),
        decreases n - v@.len(),
    {
        v.push(false);
    }
    assert(v@ =~= no_flags(n as nat));
    v
}

/// The token that the tag of slot `t` jumps forward to, if it jumps forward.
fn forward_target(graph: &AnnotatedMap, t: usize) -> (r: Option<usize>)
    ensures
        r matches Some(j) ==> jumps_forward_to(graph@, t as int, j as int),
        r is None ==> !(tag_at(graph@, t as int) matches Some(ControlFlowTag::JumpForward(_))),
{
    if t < graph.len() {
        match &graph[t] {
            Some(b) => match &b.cf_tag {
                ControlFlowTag::JumpForward(x) => Some(x.0),
                _ => None,
            },
            None => None,
        }
    } else {
        None
    }
}

/// Whether slot `t` holds what `pred` looks for.
fn pred_holds(pred: SearchPred, t: usize, graph: &AnnotatedMap) -> (r: bool)
    requires
        graph@.len() < usize::MAX,
    ensures
        r == holds(pred, graph@, t as int),
        r ==> satisfies(pred, graph@, t as int),
    decreases rank(pred), 0nat, 0nat,
{
    if t >= graph.len() {
        return false;
    }
    let tag = match &graph[t] {
        Some(b) => &b.cf_tag,
        None => {
            return false;
        },
    };
    match pred {
        SearchPred::JumpsBackTo(h) => match tag {
            ControlFlowTag::JumpBack(x) => x.0 == h,
            _ => false,
        },
        SearchPred::JoinsAt(j) => match tag {
            ControlFlowTag::JumpForward(x) => x.0 == j,
            ControlFlowTag::FallsThrough(x) => x.0 == j,
            _ => false,
        },
        SearchPred::ForwardJoin(other) => match tag {
            ControlFlowTag::JumpForward(x) => {
                match search_with_pred(other, SearchPred::JoinsAt(x.0), graph) {
                    Some(_) => true,
                    None => false,
                }
            },
            _ => false,
        },
    }
}

/// Depth-first search from `start` for a block that satisfies `pred`,
/// following forward jumps, fall-throughs, both branches of conditional jumps
/// and for-loops, but never a jump back. Blocks marked in `seen` are skipped,
/// so the search ends on every graph.
fn search_from(start: usize, pred: SearchPred, graph: &AnnotatedMap, seen: &mut Vec<bool>) -> (r: Option<usize>)
    requires
        graph@.len() < usize::MAX,
        old(seen)@.len() == graph@.len(),
    ensures
        final(seen)@.len() == old(seen)@.len(),
        falses(final(seen)@) <= falses(old(seen)@),
        (found_at(r), final(seen)@) == dfs(graph@, pred, start as int, old(seen)@),
        r matches Some(t) ==> satisfies(pred, graph@, t as int),
    decreases rank(pred), falses(old(seen)@), 1nat,
{
    if start >= graph.len() || seen[start] {
        return None;
    }
    proof {
        lemma_falses_set(seen@, start as int);
    }
    seen.set(start, true);
    if pred_holds(pred, start, graph) {
        return Some(start);
    }
    let ghost s1 = seen@;
    let (a, b): (Option<usize>, Option<usize>) = match &graph[start] {
        None => (None, None),
        Some(blk) => match &blk.cf_tag {
            ControlFlowTag::JumpForward(t) => (Some(t.0), None),
            ControlFlowTag::FallsThrough(t) => (Some(t.0), None),
            ControlFlowTag::ConditionalJump { met, otherwise, .. } => (Some(met.0), Some(otherwise.0)),
            ControlFlowTag::ForIter { found, exhausted, .. } => (Some(found.0), Some(exhausted.0)),
            _ => (None, None),
        },
    };
    if let Some(a) = a {
        let found = search_from(a, pred, graph, seen);
        if found.is_some() {
            return found;
        }
    }
    if let Some(b) = b {
        return search_from(b, pred, graph, seen);
    }
    None
}

/// Searches the graph from `start` for a block that satisfies `pred`.
pub fn search_with_pred(start: usize, pred: SearchPred, graph: &AnnotatedMap) -> (r: Option<usize>)
    requires
        graph@.len() < usize::MAX,
    ensures
        found_at(r) == dfs(graph@, pred, start as int, no_flags(graph@.len())).0,
        r matches Some(t) ==> satisfies(pred, graph@, t as int),
    decreases rank(pred), graph@.len() + 1, 0nat,
{
    let mut seen = unset_flags(graph.len());
    proof {
        lemma_falses_bound(seen@);
    }
    search_from(start, pred, graph, &mut seen)
}

/// Marks in `out` each block reachable from `start`, without crossing a
/// jump back, that jumps forward or falls through to `target`.
fn find_elses_from(
    start: usize,
    target: usize,
    graph: &AnnotatedMap,
    seen: &mut Vec<bool>,
    out: &mut Vec<bool>,
)
    requires
        old(seen)@.len() == graph@.len(),
        old(out)@.len() == graph@.len(),
    ensures
        final(seen)@.len() == old(seen)@.len(),
        falses(final(seen)@) <= falses(old(seen)@),
        final(out)@.len() == old(out)@.len(),
        (final(seen)@, final(out)@) == elses(graph@, start as int, target as int, old(seen)@, old(out)@),
        forall|i: int| 0 <= i < final(out)@.len() && #[trigger] final(out)@[i] ==> old(out)@[i] || joins_at(graph@, i, target as int),
    decreases falses(old(seen)@),
{
    if start >= graph.len() || seen[start] {
        return;
    }
    proof {
        lemma_falses_set(seen@, start as int);
    }
    seen.set(start, true);
    let (a, b): (Option<usize>, Option<usize>) = match &graph[start] {
        None => (None, None),
        Some(blk) => match &blk.cf_tag {
            ControlFlowTag::JumpForward(t) | ControlFlowTag::FallsThrough(t) => {
                if t.0 == target {
                    out.set(start, true);
                    (None, None)
                } else {
                    (Some(t.0), None)
                }
            },
            ControlFlowTag::ConditionalJump { met, otherwise, .. } => (Some(met.0), Some(otherwise.0)),
            ControlFlowTag::ForIter { found, exhausted, .. } => (Some(found.0), Some(exhausted.0)),
            _ => (None, None),
        },
    };
    let ghost o1 = out@;
    if let Some(a) = a {
        find_elses_from(a, target, graph, seen, out);
    }
    let ghost o2 = out@;
    if let Some(b) = b {
        find_elses_from(b, target, graph, seen, out);
    }
    assert forall|i: int| 0 <= i < out@.len() && #[trigger] out@[i] implies old(out)@[i] || joins_at(graph@, i, target as int) by {
        if !o2[i] {
        } else if !o1[i] {
        }
    }
}

/// Marks in `out` the blocks reachable from `start` that jump forward or
/// fall through to `target`.
pub fn find_elses(start: usize, target: usize, graph: &AnnotatedMap, out: &mut Vec<bool>)
    requires
        old(out)@.len() == graph@.len(),
    ensures
        final(out)@.len() == old(out)@.len(),
        final(out)@ == elses(graph@, start as int, target as int, no_flags(graph@.len()), old(out)@).1,
        forall|i: int| 0 <= i < final(out)@.len() && #[trigger] final(out)@[i] ==> old(out)@[i] || joins_at(graph@, i, target as int),
{
    let mut seen = unset_flags(graph.len());
    find_elses_from(start, target, graph, &mut seen, out);
}

/// Whether a forward jump reachable from `start` leads to a block that is
/// also joined from `target`: returns the block that makes that jump.
pub fn is_if_else_check(start: usize, target: usize, graph: &AnnotatedMap) -> (r: Option<usize>)
    requires
        graph@.len() < usize::MAX,
    ensures
        found_at(r) == dfs(graph@, SearchPred::ForwardJoin(target), start as int, no_flags(graph@.len())).0,
        r matches Some(t) ==> satisfies(SearchPred::ForwardJoin(target), graph@, t as int),
{
    search_with_pred(start, SearchPred::ForwardJoin(target), graph)
}

/// The forward jump at which the two branches of a conditional meet, tried
/// from `met` first and then from `otherwise`.
pub fn is_if_else(met: usize, otherwise: usize, graph: &AnnotatedMap) -> (r: Option<usize>)
    requires
        graph@.len() < usize::MAX,
    ensures
        found_at(r) == match dfs(graph@, SearchPred::ForwardJoin(otherwise), met as int, no_flags(graph@.len())).0 {
            Some(k) => Some(k),
            None => dfs(graph@, SearchPred::ForwardJoin(met), otherwise as int, no_flags(graph@.len())).0,
        },
        r matches Some(t) ==> tag_at(graph@, t as int) matches Some(ControlFlowTag::JumpForward(_)),
{
    match is_if_else_check(met, otherwise, graph) {
        Some(t) => Some(t),
        None => is_if_else_check(otherwise, met, graph),
    }
}

/// The block at which the two branches of a conditional meet: the target of
/// the forward jump that `is_if_else` finds.
fn if_else_join(met: usize, otherwise: usize, graph: &AnnotatedMap) -> (r: Option<usize>)
    requires
        graph@.len() < usize::MAX,
    ensures
        found_at(r) == join_of(graph@, met as int, otherwise as int),
        r matches Some(j) ==> exists|k: int| 0 <= k < graph@.len() && #[trigger] jumps_forward_to(graph@, k, j as int),
{
    match is_if_else(met, otherwise, graph) {
        Some(k) => {
            let r = forward_target(graph, k);
            if let Some(j) = r {
                assert(jumps_forward_to(graph@, k as int, j as int));
            }
            r
        },
        None => None,
    }
}

/// Whether a slot's tag is a placeholder left by an unfinished evaluation.
pub open spec fn has_dummy(g: Seq<Option<AnnotatedBlock>>) -> bool {
    exists|t: int| 0 <= t < g.len() && (#[trigger] g[t]) is Some && g[t]->0.cf_tag is Dummy
}

/// The condition that a conditional role tests.
pub open spec fn role_jump(p: PseudoASTTag) -> ConditionalJump {
    match p {
        PseudoASTTag::WhileHead { jump, .. } => jump,
        PseudoASTTag::BareIf { jump, .. } => jump,
        PseudoASTTag::IfElse { jump, .. } => jump,
        _ => ConditionalJump { kind: ConditionKind::True, cond: StackItem::Null },
    }
}

/// The condition kind that jumps exactly when `k` does not.
pub open spec fn negated(k: ConditionKind) -> ConditionKind {
    match k {
        ConditionKind::False => ConditionKind::True,
        ConditionKind::True => ConditionKind::False,
        ConditionKind::IsNone => ConditionKind::NotNone,
        ConditionKind::NotNone => ConditionKind::IsNone,
    }
}

/// Whether two conditions jump on the same outcome of the same value.
pub open spec fn same_jump(a: ConditionalJump, b: ConditionalJump) -> bool {
    a.kind == b.kind && same_item(a.cond, b.cond)
}

/// Whether two statement lists are the same, statement by statement.
pub open spec fn same_body(a: Seq<Instr>, b: Seq<Instr>) -> bool {
    a.len() == b.len() && forall|k: int| 0 <= k < a.len() ==> same_instr(#[trigger] a[k], b[k])
}

/// Whether `p` is the structural role of block `h`, whose evaluated tag is
/// `c`: a conditional from which a jump back to `h` is reachable heads a
/// while-loop; one whose branches meet at a forward jump is an if-else;
/// any other is a bare if. A role's body is the branch the jump skips: when
/// a loop's body is the jump's target instead, its condition is negated.
pub open spec fn resolved_from(g: Seq<Option<AnnotatedBlock>>, h: int, c: ControlFlowTag, p: PseudoASTTag) -> bool {
    match c {
        ControlFlowTag::ForIter { assignment, found, exhausted } => p matches PseudoASTTag::ForLoop {
            body,
            falls_through_to,
            assignment: a,
        } && body == found && falls_through_to == exhausted && same_instr(assignment, a),
        ControlFlowTag::JumpForward(_) => p is Breaks,
        ControlFlowTag::JumpBack(_) => p is Continues,
        ControlFlowTag::FallsThrough(t) => p == PseudoASTTag::FallsThrough(t),
        ControlFlowTag::Returns(v) => p matches PseudoASTTag::Returns(w) && same_item(v, w),
        ControlFlowTag::ConditionalJump { jump, met, otherwise } => {
            same_item(jump.cond, role_jump(p).cond) && if dfs(g, SearchPred::JumpsBackTo(h as usize), otherwise.0 as int, no_flags(g.len())).0 is Some {
                p matches PseudoASTTag::WhileHead { body, falls_through_to, .. } && if tag_at(g, otherwise.0 as int) matches Some(
                    ControlFlowTag::JumpBack(_),
                ) {
                    body == met && falls_through_to == otherwise && role_jump(p).kind == negated(jump.kind)
                } else {
                    body == otherwise && falls_through_to == met && role_jump(p).kind == jump.kind
                }
            } else {
                role_jump(p).kind == jump.kind && 
                match join_of(g, met.0 as int, otherwise.0 as int) {
                    Some(j) => p matches PseudoASTTag::IfElse { body, else_branch, falls_through_to, .. }
                        && body == otherwise && else_branch == met && falls_through_to.0 == j,
                    None => p matches PseudoASTTag::BareIf { body, falls_through_to, .. } && body == otherwise
                        && falls_through_to == met,
                }
            }
        },
        ControlFlowTag::Dummy => false,
    }
}

/// The join of the if-else that block `h` heads, if it heads one: a
/// conditional that no jump back to `h` is reachable from, whose branches
/// meet at a forward jump.
pub open spec fn head_join(g: Seq<Option<AnnotatedBlock>>, h: int) -> Option<int> {
    match tag_at(g, h) {
        Some(ControlFlowTag::ConditionalJump { met, otherwise, .. }) => if dfs(
            g,
            SearchPred::JumpsBackTo(h as usize),
            otherwise.0 as int,
            no_flags(g.len()),
        ).0 is Some {
            None
        } else {
            join_of(g, met.0 as int, otherwise.0 as int)
        },
        _ => None,
    }
}

/// Whether block `t` is one that the join of the if-else headed by `h`
/// emits in place.
pub open spec fn join_marks(g: Seq<Option<AnnotatedBlock>>, h: int, t: int) -> bool {
    match head_join(g, h) {
        Some(j) => match tag_at(g, h) {
            Some(ControlFlowTag::ConditionalJump { met, otherwise, .. }) => passes_marks(g, j, met.0 as int, otherwise.0 as int)[t],
            _ => false,
        },
        None => false,
    }
}

/// Whether block `t` is one that some if-else's join emits in place.
pub open spec fn at_join(g: Seq<Option<AnnotatedBlock>>, t: int) -> bool {
    exists|h: int| 0 <= h < g.len() && #[trigger] join_marks(g, h, t)
}

/// Whether every resolved block is a block of the graph with the same
/// statements, either emitted in place at the join of some if-else or given
/// the role that its evaluated tag calls for.
pub open spec fn resolution_ok(g: Seq<Option<AnnotatedBlock>>, r: Seq<Option<ResolvedBlock>>) -> bool {
    &&& r.len() == g.len()
    &&& forall|t: int|
        0 <= t < r.len() && (#[trigger] r[t]) is Some ==> g[t] is Some && same_body(g[t]->0.body@, r[t]->0.body@)
            && (if r[t]->0.ast_tag is Passes { at_join(g, t) } else { resolved_from(g, t, g[t]->0.cf_tag, r[t]->0.ast_tag) })
}

/// A copy of a block's statements.
fn duplicate_body(body: &Vec<Instr>) -> (r: Vec<Instr>)
    ensures
        same_body(body@, r@),
{
    let mut out: Vec<Instr> = Vec::new();
    let mut k: usize = 0;
    while k < body.len()
        invariant
            k <= body@.len(),
            out@.len() == k,
            forall|i: int| 0 <= i < k ==> same_instr(#[trigger] body@[i], out@[i]),
        decreases body@.len() - k,
    {
        out.push(duplicate_instr(&body[k]));
        k += 1;
    }
    out
}

/// The condition kind that jumps exactly when `k` does not.
fn negate(k: ConditionKind) -> (r: ConditionKind)
    ensures
        r == negated(k),
{
    match k {
        ConditionKind::False => ConditionKind::True,
        ConditionKind::True => ConditionKind::False,
        ConditionKind::IsNone => ConditionKind::NotNone,
        ConditionKind::NotNone => ConditionKind::IsNone,
    }
}

/// A copy of the condition of a conditional jump.
fn duplicate_jump(j: &ConditionalJump) -> (r: ConditionalJump)
    ensures
        same_jump(*j, r),
{
    ConditionalJump { kind: j.kind, cond: duplicate_item(&j.cond) }
}

/// The blocks that an if-else with join `tok` emits in place: those that
/// join `tok` on a walk from `otherwise`, then from `met`.
pub open spec fn passes_marks(g: Seq<Option<AnnotatedBlock>>, tok: int, met: int, otherwise: int) -> Seq<bool> {
    let n = g.len();
    elses(g, met, tok, no_flags(n), elses(g, otherwise, tok, no_flags(n), no_flags(n)).1).1
}

/// Marks as `Passes` every block reachable from either branch that jumps
/// forward or falls through to the join `tok`.
fn mark_passes(tok: usize, met: usize, otherwise: usize, graph: &AnnotatedMap, out_map: &mut ResolvedMap, head: Ghost<int>)
    requires
        resolution_ok(graph@, old(out_map)@),
        0 <= head@ < graph@.len(),
        head_join(graph@, head@) == Some(tok as int),
        tag_at(graph@, head@) matches Some(ControlFlowTag::ConditionalJump { met: m, otherwise: o, .. }) && m.0 == met
            && o.0 == otherwise,
    ensures
        resolution_ok(graph@, final(out_map)@),
        forall|t: int| 0 <= t < old(out_map)@.len() && (#[trigger] old(out_map)@[t]) is Some ==> final(out_map)@[t] is Some,
        forall|t: int| 0 <= t < old(out_map)@.len() && (#[trigger] old(out_map)@[t]) is None && final(out_map)@[t] is Some ==> final(out_map)@[t]->0.ast_tag is Passes,
        forall|t: int|
            0 <= t < final(out_map)@.len() ==> #[trigger] final(out_map)@[t] == old(out_map)@[t]
                || (final(out_map)@[t] is Some && final(out_map)@[t]->0.ast_tag is Passes),
        forall|t: int|
            0 <= t < final(out_map)@.len() ==> if #[trigger] passes_marks(graph@, tok as int, met as int, otherwise as int)[t] && graph@[t] is Some {
                final(out_map)@[t] is Some && final(out_map)@[t]->0.ast_tag is Passes
            } else {
                final(out_map)@[t] == old(out_map)@[t]
            },
{
    let ghost g = graph@;
    let mut marks = unset_flags(graph.len());
    find_elses(otherwise, tok, graph, &mut marks);
    find_elses(met, tok, graph, &mut marks);
    let ghost pm = marks@;
    assert(pm == passes_marks(g, tok as int, met as int, otherwise as int));
    let mut b: usize = 0;
    while b < graph.len()
        invariant
            b <= graph@.len() == marks@.len(),
            out_map@.len() == graph@.len(),
            old(out_map)@.len() == graph@.len(),
            g == graph@,
            resolution_ok(g, out_map@),
            forall|i: int| 0 <= i < marks@.len() && #[trigger] marks@[i] ==> joins_at(g, i, tok as int),
            forall|t: int| 0 <= t < old(out_map)@.len() && (#[trigger] old(out_map)@[t]) is Some ==> out_map@[t] is Some,
            forall|t: int| 0 <= t < old(out_map)@.len() && (#[trigger] old(out_map)@[t]) is None && out_map@[t] is Some ==> out_map@[t]->0.ast_tag is Passes,
            marks@ == pm,
            pm == passes_marks(g, tok as int, met as int, otherwise as int),
            0 <= head@ < g.len(),
            head_join(g, head@) == Some(tok as int),
            tag_at(g, head@) matches Some(ControlFlowTag::ConditionalJump { met: m, otherwise: o, .. }) && m.0 == met
                && o.0 == otherwise,
            forall|t: int|
                0 <= t < b ==> if #[trigger] pm[t] && g[t] is Some {
                    out_map@[t] is Some && out_map@[t]->0.ast_tag is Passes
                } else {
                    out_map@[t] == old(out_map)@[t]
                },
            forall|t: int| b <= t < out_map@.len() ==> #[trigger] out_map@[t] == old(out_map)@[t],
        decreases graph@.len() - b,
    {
        if marks[b] {
            match &graph[b] {
                Some(gb) => {
                    out_map.set(b, Some(ResolvedBlock { body: duplicate_body(&gb.body), ast_tag: PseudoASTTag::Passes }));
                    assert(join_marks(g, head@, b as int));
                },
                None => {},
            }
        }
        b += 1;
    }
    assert forall|t: int| 0 <= t < out_map@.len() implies #[trigger] out_map@[t] == old(out_map)@[t]
        || (out_map@[t] is Some && out_map@[t]->0.ast_tag is Passes) by {
        if pm[t] && g[t] is Some {
        }
    }
}

/// Gives the block `resolving` its structural role, unless it already has
/// one. An if-else also marks the blocks that meet at its join as `Passes`.
pub fn resolve_tags(resolving: usize, graph: &AnnotatedMap, out_map: &mut ResolvedMap)
    requires
        graph@.len() < usize::MAX,
        !has_dummy(graph@),
        resolution_ok(graph@, old(out_map)@),
    ensures
        resolution_ok(graph@, final(out_map)@),
        forall|t: int| 0 <= t < old(out_map)@.len() && (#[trigger] old(out_map)@[t]) is Some ==> final(out_map)@[t] is Some,
        resolving < graph@.len() && graph@[resolving as int] is Some ==> final(out_map)@[resolving as int] is Some,
        resolving < graph@.len() && old(out_map)@[resolving as int] is None && graph@[resolving as int] is Some
            ==> resolved_from(graph@, resolving as int, graph@[resolving as int]->0.cf_tag,
            final(out_map)@[resolving as int]->0.ast_tag),
        forall|t: int|
            0 <= t < final(out_map)@.len() && t != resolving ==> #[trigger] final(out_map)@[t] == old(out_map)@[t]
                || (final(out_map)@[t] is Some && final(out_map)@[t]->0.ast_tag is Passes),
        resolving < old(out_map)@.len() && old(out_map)@[resolving as int] is Some ==> final(out_map)@ == old(out_map)@,
        resolving < graph@.len() && old(out_map)@[resolving as int] is None ==> forall|t: int|
            0 <= t < graph@.len() && t != resolving && graph@[t] is Some && #[trigger] join_marks(graph@, resolving as int, t)
                ==> final(out_map)@[t] is Some && final(out_map)@[t]->0.ast_tag is Passes,
{
    if resolving >= graph.len() || out_map[resolving].is_some() {
        return;
    }
    let blk = match &graph[resolving] {
        Some(b) => b,
        None => {
            return;
        },
    };
    let ghost g = graph@;
    let ghost h = resolving as int;
    assert(!(blk.cf_tag is Dummy));
    let tag = match &blk.cf_tag {
        ControlFlowTag::ForIter { assignment, found, exhausted } => PseudoASTTag::ForLoop {
            body: *found,
            falls_through_to: *exhausted,
            assignment: duplicate_instr(assignment),
        },
        ControlFlowTag::JumpForward(_) => PseudoASTTag::Breaks,
        ControlFlowTag::JumpBack(_) => PseudoASTTag::Continues,
        ControlFlowTag::FallsThrough(to) => PseudoASTTag::FallsThrough(*to),
        ControlFlowTag::Returns(v) => PseudoASTTag::Returns(duplicate_item(v)),
        // Excluded by the precondition: the graph holds no placeholder.
        ControlFlowTag::Dummy => PseudoASTTag::Passes,
        ControlFlowTag::ConditionalJump { jump, met, otherwise } => {
            if search_with_pred(otherwise.0, SearchPred::JumpsBackTo(resolving), graph).is_some() {
                let back_first = otherwise.0 < graph.len() && match &graph[otherwise.0] {
                    Some(ob) => match &ob.cf_tag {
                        ControlFlowTag::JumpBack(_) => true,
                        _ => false,
                    },
                    None => false,
                };
                if back_first {
                    let j = duplicate_jump(jump);
                    let flipped = ConditionalJump { kind: negate(j.kind), cond: j.cond };
                    PseudoASTTag::WhileHead { jump: flipped, body: *met, falls_through_to: *otherwise }
                } else {
                    PseudoASTTag::WhileHead { jump: duplicate_jump(jump), body: *otherwise, falls_through_to: *met }
                }
            } else if let Some(tok) = if_else_join(met.0, otherwise.0, graph) {
                assert(head_join(g, h) == Some(tok as int));
                mark_passes(tok, met.0, otherwise.0, graph, out_map, Ghost(h));
                PseudoASTTag::IfElse {
                    jump: duplicate_jump(jump),
                    body: *otherwise,
                    else_branch: *met,
                    falls_through_to: BasicBlockToken(tok),
                }
            } else {
                PseudoASTTag::BareIf { jump: duplicate_jump(jump), body: *otherwise, falls_through_to: *met }
            }
        },
    };
    assert(resolved_from(g, h, blk.cf_tag, tag));
    out_map.set(resolving, Some(ResolvedBlock { body: duplicate_body(&blk.body), ast_tag: tag }));
}

/// Resolves every block of the graph. The result has exactly the blocks of
/// the graph: resolution retags, it never drops or adds a block.
pub fn resolve_all(graph: &AnnotatedMap) -> (r: ResolvedMap)
    requires
        graph@.len() < usize::MAX,
        !has_dummy(graph@),
    ensures
        resolution_ok(graph@, r@),
        forall|t: int| 0 <= t < r@.len() ==> ((#[trigger] r@[t]) is Some <==> graph@[t] is Some),
        forall|h: int, x: int|
            0 <= h < r@.len() && 0 <= x < r@.len() && x != h && r@[h] is Some && !(r@[h]->0.ast_tag is Passes)
                && graph@[x] is Some && #[trigger] join_marks(graph@, h, x) ==> #[trigger] r@[x] is Some
                && r@[x]->0.ast_tag is Passes,
{
    let n = graph.len();
    let mut out: ResolvedMap = Vec::new();
    while out.len() < n
        invariant
            out@.len() <= n == graph@.len(),
            forall|t: int| 0 <= t < out@.len() ==> (#[trigger] out@[t]) is None,
        decreases n - out@.len(),
    {
        out.push(None);
    }
    let mut t: usize = 0;
    while t < n
        invariant
            t <= n == graph@.len(),
            n < usize::MAX,
            !has_dummy(graph@),
            resolution_ok(graph@, out@),
            out@.len() == n,
            forall|k: int| 0 <= k < t && (#[trigger] graph@[k]) is Some ==> out@[k] is Some,
            forall|k: int| 0 <= k < n && (#[trigger] out@[k]) is Some && !(out@[k]->0.ast_tag is Passes) ==> k < t,
            forall|h: int, x: int|
                0 <= h < n && 0 <= x < n && x != h && out@[h] is Some && !(out@[h]->0.ast_tag is Passes)
                    && graph@[x] is Some && #[trigger] join_marks(graph@, h, x) ==> #[trigger] out@[x] is Some
                    && out@[x]->0.ast_tag is Passes,
        decreases n - t,
    {
        let ghost o0 = out@;
        if graph[t].is_some() {
            resolve_tags(t, graph, &mut out);
        }
        proof {
            let o1 = out@;
            assert forall|x: int| 0 <= x < n && x != t && (#[trigger] o0[x]) is Some && o0[x]->0.ast_tag is Passes
                implies o1[x] is Some && o1[x]->0.ast_tag is Passes by {}
            assert forall|k: int| 0 <= k < n && (#[trigger] o1[k]) is Some && !(o1[k]->0.ast_tag is Passes) implies k < t + 1 by {
                if k != t {
                    assert(o1[k] == o0[k]);
                }
            }
            assert forall|h: int, x: int|
                0 <= h < n && 0 <= x < n && x != h && o1[h] is Some && !(o1[h]->0.ast_tag is Passes)
                    && graph@[x] is Some && #[trigger] join_marks(graph@, h, x) implies #[trigger] o1[x] is Some
                    && o1[x]->0.ast_tag is Passes by {
                if h != t {
                    assert(o1[h] == o0[h]);
                    assert(o0[x] is Some && o0[x]->0.ast_tag is Passes);
                    if x == t {
                        assert(o1[x] == o0[x]);
                    }
                } else {
                    if o0[t as int] is Some {
                        assert(o0[t as int]->0.ast_tag is Passes);
                        assert(o1 == o0);
                    }
                }
            }
        }
        t += 1;
    }
    out
}

} // verus!
