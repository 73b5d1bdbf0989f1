//! The outline tree and its reconstruction from flat records.
use vstd::prelude::*;
use crate::record::{flags_of, recs_view, Flags, Rec, RecModel};

verus! {

/// One element of the outline tree.
#[derive(Debug)]
pub struct Node {
    pub text: String,
    pub note: Option<String>,
    pub collapsed: bool,
    pub flags: Flags,
    pub synthetic: bool,
    pub children: Vec<Node>,
}

/// The value of a tree node.
pub ghost struct Outline {
    pub text: Seq<char>,
    pub note: Option<Seq<char>>,
    pub collapsed: bool,
    pub flags: Flags,
    pub synthetic: bool,
    pub children: Seq<Outline>,
}

/// The values of a sequence of nodes.
pub open spec fn forest_view(ns: Seq<Node>) -> Seq<Outline>
    decreases ns,
{
    if ns.len() == 0 {
        Seq::empty()
    } else {
        forest_view(ns.drop_last()).push(node_view(ns.last()))
    }
}

/// The value of a node.
pub open spec fn node_view(n: Node) -> Outline
    decreases n,
{
    Outline {
        text: n.text@,
        note: match n.note {
            Some(s) => Some(s@),
            None => None,
        },
        collapsed: n.collapsed,
        flags: n.flags,
        synthetic: n.synthetic,
        children: forest_view(n.children@),
    }
}

pub proof fn lemma_forest_view(ns: Seq<Node>)
    ensures
        forest_view(ns).len() == ns.len(),
        forall|i: int| 0 <= i < ns.len() ==> #[trigger] forest_view(ns)[i] == node_view(ns[i]),
    decreases ns.len(),
{
    if ns.len() > 0 {
        lemma_forest_view(ns.drop_last());
    }
}

/// A synthetic node that bridges a jump of more than one level.
pub open spec fn filler() -> Outline {
    Outline {
        text: Seq::empty(),
        note: None,
        collapsed: false,
        flags: flags_of(0),
        synthetic: true,
        children: Seq::empty(),
    }
}

/// The childless node made from a record.
pub open spec fn rec_node(r: RecModel) -> Outline {
    Outline {
        text: r.text,
        note: r.note,
        collapsed: r.collapsed,
        flags: r.flags,
        synthetic: false,
        children: Seq::empty(),
    }
}

/// A path of child indices, as naturals.
pub open spec fn nat_path(p: Seq<usize>) -> Seq<nat> {
    p.map_values(|i: usize| i as nat)
}

/// Whether `path` leads, by child indices, from `t` to one of its nodes.
pub open spec fn path_valid(t: Outline, path: Seq<nat>) -> bool
    decreases path.len(),
{
    path.len() == 0 || (path[0] < t.children.len() && path_valid(
        t.children[path[0] as int],
        path.drop_first(),
    ))
}

/// The node that `path` leads to from `t`.
pub open spec fn node_at(t: Outline, path: Seq<nat>) -> Outline
    decreases path.len(),
{
    if path.len() == 0 || path[0] >= t.children.len() {
        t
    } else {
        node_at(t.children[path[0] as int], path.drop_first())
    }
}

/// `t` with `c` appended to the children of the node that `path` leads to.
pub open spec fn append_at(t: Outline, path: Seq<nat>, c: Outline) -> Outline
    decreases path.len(),
{
    if path.len() == 0 {
        Outline { children: t.children.push(c), ..t }
    } else if path[0] >= t.children.len() {
        t
    } else {
        Outline {
            children: t.children.update(
                path[0] as int,
                append_at(t.children[path[0] as int], path.drop_first(), c),
            ),
            ..t
        }
    }
}

fn push_child_from(node: &mut Node, path: &Vec<usize>, pos: usize, child: Node) -> (idx: usize)
    requires
        pos <= path@.len(),
        path_valid(node_view(*old(node)), nat_path(path@).skip(pos as int)),
    ensures
        node_view(*final(node)) == append_at(
            node_view(*old(node)),
            nat_path(path@).skip(pos as int),
            node_view(child),
        ),
        idx == node_at(node_view(*old(node)), nat_path(path@).skip(pos as int)).children.len(),
    decreases path@.len() - pos,
{
    let ghost p = nat_path(path@).skip(pos as int);
    let ghost before = node.children@;
    proof {
        lemma_forest_view(before);
    }
    if pos == path.len() {
        node.children.push(child);
        proof {
            lemma_forest_view(node.children@);
            assert(forest_view(node.children@) =~= forest_view(before).push(node_view(child)));
        }
        node.children.len() - 1
    } else {
        let i = path[pos];
        assert(p.drop_first() =~= nat_path(path@).skip(pos + 1));
        let mut sub = node.children.remove(i);
        let r = push_child_from(&mut sub, path, pos + 1, child);
        node.children.insert(i, sub);
        proof {
            lemma_forest_view(node.children@);
            assert(node.children@ =~= before.update(i as int, sub));
            assert(forest_view(node.children@) =~= forest_view(before).update(
                i as int,
                node_view(sub),
            ));
        }
        r
    }
}

/// Appends `child` to the children of the node that `path` leads to from
/// `root`, and extends `path` to lead to the new child.
pub fn push_child(root: &mut Node, path: &mut Vec<usize>, child: Node)
    requires
        path_valid(node_view(*old(root)), nat_path(old(path)@)),
    ensures
        node_view(*final(root)) == append_at(
            node_view(*old(root)),
            nat_path(old(path)@),
            node_view(child),
        ),
        nat_path(final(path)@) == nat_path(old(path)@).push(
            node_at(node_view(*old(root)), nat_path(old(path)@)).children.len(),
        ),
{
    assert(nat_path(path@).skip(0) =~= nat_path(path@));
    let idx = push_child_from(root, path, 0, child);
    let ghost before = nat_path(path@);
    path.push(idx);
    assert(nat_path(path@) =~= before.push(idx as nat));
}

/// The builder's state: the tree under a synthetic root, the path to the
/// current insertion context, and the current level.
pub ghost struct BuildState {
    pub root: Outline,
    pub path: Seq<nat>,
    pub level: int,
}

/// `s` with `c` appended under the node that its path leads to, and the
/// path extended to `c`.
pub open spec fn push_at_path(s: BuildState, c: Outline) -> BuildState {
    BuildState {
        root: append_at(s.root, s.path, c),
        path: s.path.push(node_at(s.root, s.path).children.len()),
        level: s.level,
    }
}

/// `s` with fillers pushed until its path is `level` long.
pub open spec fn fill_to(s: BuildState, level: int) -> BuildState
    decreases level - s.path.len(),
{
    if s.path.len() >= level {
        s
    } else {
        fill_to(push_at_path(s, filler()), level)
    }
}

/// `x`, or zero where `x` is negative.
pub open spec fn clamp0(x: int) -> int {
    if x < 0 {
        0
    } else {
        x
    }
}

/// The state after one more record: the level moves by the record's delta
/// (never below zero), the path is cut back to that level, fillers bridge
/// any gap, and the record's node becomes the new context.
pub open spec fn build_step(s: BuildState, r: RecModel) -> BuildState {
    let level = clamp0(s.level + r.delta);
    let cut = BuildState {
        root: s.root,
        path: if s.path.len() > level { s.path.take(level) } else { s.path },
        level,
    };
    push_at_path(fill_to(cut, level), rec_node(r))
}

/// The level of the `n`-th record: the running sum of the first `n`
/// deltas, never below zero.
pub open spec fn level_after(recs: Seq<RecModel>, n: nat) -> int
    decreases n,
{
    if n == 0 || n > recs.len() {
        0
    } else {
        clamp0(level_after(recs, (n - 1) as nat) + recs[n - 1].delta)
    }
}

/// The state before any record.
pub open spec fn build_start() -> BuildState {
    BuildState { root: filler(), path: Seq::empty(), level: 0 }
}

/// The state after the first `n` records.
pub open spec fn build_upto(recs: Seq<RecModel>, n: nat) -> BuildState
    decreases n,
{
    if n == 0 || n > recs.len() {
        build_start()
    } else {
        build_step(build_upto(recs, (n - 1) as nat), recs[n - 1])
    }
}

/// The forest that a record sequence builds.
pub open spec fn build_forest(recs: Seq<RecModel>) -> Seq<Outline> {
    build_upto(recs, recs.len()).root.children
}

proof fn lemma_append_new_path(t: Outline, p: Seq<nat>, c: Outline)
    requires
        path_valid(t, p),
    ensures
        path_valid(append_at(t, p, c), p.push(node_at(t, p).children.len())),
    decreases p.len(),
{
    let n = node_at(t, p).children.len();
    if p.len() == 0 {
        let q = p.push(n);
        let a = append_at(t, p, c);
        assert(q.drop_first() =~= Seq::<nat>::empty());
        assert(path_valid(a.children[n as int], q.drop_first()));
        assert(q[0] < a.children.len());
    } else {
        let ch = t.children[p[0] as int];
        assert(node_at(t, p) == node_at(ch, p.drop_first()));
        lemma_append_new_path(ch, p.drop_first(), c);
        let q = p.push(n);
        assert(q[0] == p[0]);
        assert(q.drop_first() =~= p.drop_first().push(n));
        assert(append_at(t, p, c).children[p[0] as int] == append_at(ch, p.drop_first(), c));
        assert(path_valid(append_at(ch, p.drop_first(), c), q.drop_first()));
    }
}

proof fn lemma_prefix_valid(t: Outline, p: Seq<nat>, k: int)
    requires
        path_valid(t, p),
        0 <= k <= p.len(),
    ensures
        path_valid(t, p.take(k)),
    decreases p.len(),
{
    if k > 0 {
        lemma_prefix_valid(t.children[p[0] as int], p.drop_first(), k - 1);
        assert(p.take(k).drop_first() =~= p.drop_first().take(k - 1));
    }
}

pub proof fn lemma_append_synthetic(t: Outline, p: Seq<nat>, c: Outline)
    ensures
        append_at(t, p, c).synthetic == t.synthetic,
{
}

/// Whether two nodes agree in everything but their children.
pub open spec fn same_entry(a: Outline, b: Outline) -> bool {
    a.text == b.text && a.note == b.note && a.collapsed == b.collapsed && a.flags == b.flags
        && a.synthetic == b.synthetic
}

proof fn lemma_append_keeps(t: Outline, q: Seq<nat>, c: Outline, p: Seq<nat>)
    requires
        path_valid(t, p),
        path_valid(t, q),
    ensures
        path_valid(append_at(t, q, c), p),
        same_entry(node_at(append_at(t, q, c), p), node_at(t, p)),
    decreases p.len(),
{
    let a = append_at(t, q, c);
    if p.len() > 0 {
        let k = p[0] as int;
        if q.len() > 0 && p[0] == q[0] {
            lemma_append_keeps(t.children[k], q.drop_first(), c, p.drop_first());
            assert(a.children[k] == append_at(t.children[k], q.drop_first(), c));
        } else {
            assert(a.children[k] == t.children[k]);
        }
    }
}

proof fn lemma_append_new_node(t: Outline, p: Seq<nat>, c: Outline)
    requires
        path_valid(t, p),
    ensures
        node_at(append_at(t, p, c), p.push(node_at(t, p).children.len())) == c,
    decreases p.len(),
{
    let n = node_at(t, p).children.len();
    let q = p.push(n);
    let a = append_at(t, p, c);
    if p.len() == 0 {
        assert(q.drop_first() =~= Seq::<nat>::empty());
        assert(a.children[n as int] == c);
        assert(node_at(a.children[n as int], q.drop_first()) == c);
        assert(q[0] == n);
    } else {
        let k = p[0] as int;
        lemma_append_new_node(t.children[k], p.drop_first(), c);
        assert(q.drop_first() =~= p.drop_first().push(n));
        assert(a.children[k] == append_at(t.children[k], p.drop_first(), c));
        assert(q[0] == p[0]);
        assert(node_at(t, p) == node_at(t.children[k], p.drop_first()));
    }
}

proof fn lemma_push_keeps(s: BuildState, c: Outline, p: Seq<nat>)
    requires
        path_valid(s.root, s.path),
        path_valid(s.root, p),
    ensures
        path_valid(push_at_path(s, c).root, push_at_path(s, c).path),
        path_valid(push_at_path(s, c).root, p),
        same_entry(node_at(push_at_path(s, c).root, p), node_at(s.root, p)),
        node_at(push_at_path(s, c).root, push_at_path(s, c).path) == c,
{
    lemma_append_new_path(s.root, s.path, c);
    lemma_append_keeps(s.root, s.path, c, p);
    lemma_append_new_node(s.root, s.path, c);
}

proof fn lemma_fill_keeps(s: BuildState, level: int, p: Seq<nat>)
    requires
        path_valid(s.root, s.path),
        path_valid(s.root, p),
    ensures
        path_valid(fill_to(s, level).root, fill_to(s, level).path),
        path_valid(fill_to(s, level).root, p),
        same_entry(node_at(fill_to(s, level).root, p), node_at(s.root, p)),
        fill_to(s, level).level == s.level,
        fill_to(s, level).path.len() == if s.path.len() >= level {
            s.path.len() as int
        } else {
            level
        },
    decreases level - s.path.len(),
{
    if s.path.len() < level {
        let s2 = push_at_path(s, filler());
        lemma_push_keeps(s, filler(), p);
        lemma_fill_keeps(s2, level, p);
    }
}

proof fn lemma_step_keeps(s: BuildState, r: RecModel, p: Seq<nat>)
    requires
        path_valid(s.root, s.path),
        path_valid(s.root, p),
    ensures
        path_valid(build_step(s, r).root, build_step(s, r).path),
        path_valid(build_step(s, r).root, p),
        same_entry(node_at(build_step(s, r).root, p), node_at(s.root, p)),
        build_step(s, r).path.len() == clamp0(s.level + r.delta) + 1,
        build_step(s, r).level == clamp0(s.level + r.delta),
        node_at(build_step(s, r).root, build_step(s, r).path) == rec_node(r),
{
    let level = clamp0(s.level + r.delta);
    let cut = BuildState {
        root: s.root,
        path: if s.path.len() > level { s.path.take(level) } else { s.path },
        level,
    };
    if s.path.len() > level {
        lemma_prefix_valid(s.root, s.path, level);
    }
    lemma_fill_keeps(cut, level, p);
    lemma_push_keeps(fill_to(cut, level), rec_node(r), p);
}

proof fn lemma_upto(recs: Seq<RecModel>, n: nat)
    requires
        n <= recs.len(),
    ensures
        path_valid(build_upto(recs, n).root, build_upto(recs, n).path),
        build_upto(recs, n).level == level_after(recs, n),
    decreases n,
{
    if n > 0 {
        lemma_upto(recs, (n - 1) as nat);
        let s = build_upto(recs, (n - 1) as nat);
        lemma_step_keeps(s, recs[n - 1], s.path);
    }
}

proof fn lemma_upto_keeps(recs: Seq<RecModel>, m: nat, n: nat, p: Seq<nat>)
    requires
        m <= n <= recs.len(),
        path_valid(build_upto(recs, m).root, p),
    ensures
        path_valid(build_upto(recs, n).root, p),
        same_entry(node_at(build_upto(recs, n).root, p), node_at(build_upto(recs, m).root, p)),
    decreases n - m,
{
    if m < n {
        lemma_upto(recs, m);
        lemma_step_keeps(build_upto(recs, m), recs[m as int], p);
        lemma_upto_keeps(recs, m + 1, n, p);
    }
}

/// Each record's node stands at the depth given by the running sum of the
/// deltas up to and including its own, never below zero: the path to it
/// from the synthetic root takes one step into the top level and one more
/// per level below it, and the node there holds the record's entry.
pub proof fn lemma_depth_invariant(recs: Seq<RecModel>, i: int)
    requires
        0 <= i < recs.len(),
    ensures
        ({
            let p = build_upto(recs, (i + 1) as nat).path;
            let t = build_upto(recs, recs.len()).root;
            &&& p.len() == level_after(recs, (i + 1) as nat) + 1
            &&& path_valid(t, p)
            &&& same_entry(node_at(t, p), rec_node(recs[i]))
        }),
{
    lemma_upto(recs, i as nat);
    let s = build_upto(recs, i as nat);
    lemma_step_keeps(s, recs[i], s.path);
    let p = build_upto(recs, (i + 1) as nat).path;
    lemma_upto_keeps(recs, (i + 1) as nat, recs.len(), p);
}

fn filler_node() -> (n: Node)
    ensures
        node_view(n) == filler(),
{
    let n = Node {
        text: String::new(),
        note: None,
        collapsed: false,
        flags: Flags::none(),
        synthetic: true,
        children: Vec::new(),
    };
    assert(forest_view(n.children@) =~= Seq::<Outline>::empty());
    assert(node_view(n) =~= filler());
    n
}

fn node_of(r: &Rec) -> (n: Node)
    ensures
        node_view(n) == rec_node(r@),
{
    let note = match &r.note {
        Some(t) => Some(t.clone()),
        None => None,
    };
    let n = Node {
        text: r.text.clone(),
        note,
        collapsed: r.collapsed,
        flags: r.flags,
        synthetic: false,
        children: Vec::new(),
    };
    assert(forest_view(n.children@) =~= Seq::<Outline>::empty());
    assert(node_view(n) =~= rec_node(r@));
    n
}

/// Rebuilds the outline tree from flat records: each record's delta moves
/// the current level (never below zero), fillers bridge jumps of more than
/// one level, and each record's node becomes the context for the next.
pub fn build_tree(recs: &[Rec]) -> (r: Vec<Node>)
    ensures
        forest_view(r@) == build_forest(recs_view(recs@)),
{
    let ghost rv = recs_view(recs@);
    let mut root = filler_node();
    let mut path: Vec<usize> = Vec::new();
    let mut level: i128 = 0;
    let mut i: usize = 0;
    while i < recs.len()
        invariant
            i <= recs@.len(),
            rv == recs_view(recs@),
            0 <= level <= 32768 * i,
            node_view(root) == build_upto(rv, i as nat).root,
            nat_path(path@) == build_upto(rv, i as nat).path,
            level == build_upto(rv, i as nat).level,
            path_valid(node_view(root), nat_path(path@)),
        decreases recs@.len() - i,
    {
        let r = &recs[i];
        let ghost s = build_upto(rv, i as nat);
        assert(rv[i as int] == r@);
        level = level + r.delta as i128;
        if level < 0 {
            level = 0;
        }
        let ghost cut_path = if s.path.len() > level { s.path.take(level as int) } else { s.path };
        assert(s.path.take(s.path.len() as int) =~= s.path);
        while path.len() as i128 > level
            invariant
                0 <= level,
                path@.len() >= cut_path.len(),
                cut_path == s.path.take(cut_path.len() as int),
                s.path.len() > level ==> cut_path.len() == level,
                s.path.len() <= level ==> cut_path.len() == s.path.len(),
                nat_path(path@) == s.path.take(path@.len() as int),
                path@.len() <= s.path.len(),
            decreases path@.len(),
        {
            path.pop();
            assert(nat_path(path@) =~= s.path.take(path@.len() as int));
        }
        assert(nat_path(path@) =~= cut_path);
        proof {
            lemma_prefix_valid(s.root, s.path, path@.len() as int);
        }
        let ghost cut = BuildState { root: s.root, path: cut_path, level: level as int };
        while (path.len() as i128) < level
            invariant
                path_valid(node_view(root), nat_path(path@)),
                fill_to(
                    BuildState { root: node_view(root), path: nat_path(path@), level: level as int },
                    level as int,
                )
                    == fill_to(cut, level as int),
            decreases level - path@.len(),
        {
            let f = filler_node();
            let ghost t = node_view(root);
            let ghost p = nat_path(path@);
            push_child(&mut root, &mut path, f);
            proof {
                lemma_append_new_path(t, p, filler());
            }
        }
        let n = node_of(r);
        let ghost t = node_view(root);
        let ghost p = nat_path(path@);
        let ghost nv = node_view(n);
        push_child(&mut root, &mut path, n);
        proof {
            lemma_append_new_path(t, p, nv);
        }
        i = i + 1;
    }
    proof {
        assert(rv.len() == recs@.len());
    }
    root.children
}

} // verus!
