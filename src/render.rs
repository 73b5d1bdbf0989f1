//! The tree renderers: PlainAll and Indented.
use vstd::prelude::*;
use crate::text::{note_lines, push_note_lines, push_repeat, push_text, repeat};
use crate::tree::{forest_view, lemma_forest_view, node_view, Node, Outline};

verus! {

/// How many real (not synthetic) levels a forest has.
pub open spec fn forest_height(ns: Seq<Outline>) -> nat
    decreases ns,
{
    if ns.len() == 0 {
        0
    } else {
        let a = forest_height(ns.drop_last());
        let b = node_height(ns.last());
        if a < b {
            b
        } else {
            a
        }
    }
}

/// How many real levels a node and its descendants span.
pub open spec fn node_height(n: Outline) -> nat
    decreases n,
{
    if n.synthetic {
        forest_height(n.children)
    } else {
        1 + forest_height(n.children)
    }
}

pub proof fn lemma_height_bound(ns: Seq<Outline>, i: int)
    requires
        0 <= i < ns.len(),
    ensures
        node_height(ns[i]) <= forest_height(ns),
    decreases ns.len(),
{
    if i < ns.len() - 1 {
        lemma_height_bound(ns.drop_last(), i);
    }
}

/// The PlainAll rendering of a forest at `depth`: every real node, two
/// spaces of indent per level, its note lines one level deeper, and all of
/// its children, collapsed or not; synthetic nodes are transparent.
pub open spec fn plain_forest(ns: Seq<Outline>, depth: nat) -> Seq<char>
    decreases ns,
{
    if ns.len() == 0 {
        Seq::empty()
    } else {
        plain_forest(ns.drop_last(), depth) + plain_node(ns.last(), depth)
    }
}

/// The PlainAll rendering of one node at `depth`.
pub open spec fn plain_node(n: Outline, depth: nat) -> Seq<char>
    decreases n,
{
    if n.synthetic {
        plain_forest(n.children, depth)
    } else {
        repeat(' ', 2 * depth) + n.text + seq!['\n'] + match n.note {
            Some(t) => note_lines(t, repeat(' ', 2 * (depth + 1))),
            None => Seq::empty(),
        } + plain_forest(n.children, depth + 1)
    }
}

/// Renders every node of a forest at `depth`, two spaces of indent per
/// level, notes one level deeper with line endings normalised, and
/// descends into collapsed nodes too.
pub fn render_plain_all(nodes: &[Node], depth: usize) -> (r: String)
    requires
        depth + forest_height(forest_view(nodes@)) <= usize::MAX,
    ensures
        r@ == plain_forest(forest_view(nodes@), depth as nat),
    decreases nodes@,
{
    let ghost fv = forest_view(nodes@);
    proof {
        lemma_forest_view(nodes@);
    }
    let mut out = String::new();
    let mut i: usize = 0;
    assert(nodes@.take(0) =~= Seq::<Node>::empty());
    while i < nodes.len()
        invariant
            i <= nodes@.len(),
            fv == forest_view(nodes@),
            fv.len() == nodes@.len(),
            forall|j: int| 0 <= j < nodes@.len() ==> #[trigger] fv[j] == node_view(nodes@[j]),
            depth + forest_height(fv) <= usize::MAX,
            out@ == plain_forest(forest_view(nodes@.take(i as int)), depth as nat),
        decreases nodes@.len() - i,
    {
        let n = &nodes[i];
        let ghost nv = node_view(*n);
        let ghost before = out@;
        let ghost prev = forest_view(nodes@.take(i as int));
        assert(nodes@.take(i + 1).drop_last() =~= nodes@.take(i as int));
        assert(forest_view(nodes@.take(i + 1)) == prev.push(nv));
        assert(prev.push(nv).drop_last() =~= prev);
        proof {
            lemma_height_bound(fv, i as int);
            assert(decreases_to!(nodes@ => nodes@[i as int]));
        }
        if n.synthetic {
            let sub = render_plain_all(n.children.as_slice(), depth);
            push_text(&mut out, sub.as_str());
        } else {
            push_repeat(&mut out, ' ', depth);
            push_repeat(&mut out, ' ', depth);
            push_text(&mut out, n.text.as_str());
            out.push('\n');
            match &n.note {
                Some(t) => {
                    let mut p = String::new();
                    push_repeat(&mut p, ' ', depth);
                    push_repeat(&mut p, ' ', depth);
                    p.push(' ');
                    p.push(' ');
                    assert(p@ =~= repeat(' ', 2 * (depth as nat + 1)));
                    push_note_lines(&mut out, t.as_str(), p.as_str());
                },
                None => {},
            }
            let sub = render_plain_all(n.children.as_slice(), depth + 1);
            push_text(&mut out, sub.as_str());
        }
        assert(out@ =~= before + plain_node(nv, depth as nat));
        i = i + 1;
        assert(out@ =~= plain_forest(forest_view(nodes@.take(i as int)), depth as nat));
    }
    assert(nodes@.take(i as int) =~= nodes@);
    out
}

/// The Indented rendering of a forest under prefix `p`: a fold mark, a
/// selection mark and the heading of every real node, its note lines
/// marked with `>`, and the children of expanded nodes four spaces
/// further in; synthetic nodes are transparent.
pub open spec fn indented_forest(ns: Seq<Outline>, p: Seq<char>) -> Seq<char>
    decreases ns,
{
    if ns.len() == 0 {
        Seq::empty()
    } else {
        indented_forest(ns.drop_last(), p) + indented_node(ns.last(), p)
    }
}

/// The Indented rendering of one node under prefix `p`.
pub open spec fn indented_node(n: Outline, p: Seq<char>) -> Seq<char>
    decreases n,
{
    if n.synthetic {
        indented_forest(n.children, p)
    } else {
        p + (if n.collapsed {
            seq!['[', '+', ']']
        } else {
            seq!['[', '-', ']']
        }) + (if n.flags.selected {
            seq!['*']
        } else {
            seq![' ']
        }) + seq![' '] + n.text + seq!['\n'] + match n.note {
            Some(t) => note_lines(t, p + seq![' ', ' ', ' ', ' ', '>', ' ']),
            None => Seq::empty(),
        } + if n.collapsed {
            Seq::empty()
        } else {
            indented_forest(n.children, p + seq![' ', ' ', ' ', ' '])
        }
    }
}

fn render_indented_node(n: &Node, prefix: &str) -> (r: String)
    ensures
        r@ == indented_node(node_view(*n), prefix@),
    decreases *n,
{
    let mut out = String::new();
    if n.synthetic {
        return render_indented(n.children.as_slice(), prefix);
    }
    push_text(&mut out, prefix);
    out.push('[');
    out.push(if n.collapsed { '+' } else { '-' });
    out.push(']');
    out.push(if n.flags.selected { '*' } else { ' ' });
    out.push(' ');
    push_text(&mut out, n.text.as_str());
    out.push('\n');
    match &n.note {
        Some(t) => {
            let mut p = String::new();
            push_text(&mut p, prefix);
            push_repeat(&mut p, ' ', 4);
            p.push('>');
            p.push(' ');
            assert(p@ =~= prefix@ + seq![' ', ' ', ' ', ' ', '>', ' ']);
            push_note_lines(&mut out, t.as_str(), p.as_str());
        },
        None => {},
    }
    let ghost head = out@;
    if !n.collapsed && n.children.len() > 0 {
        let mut p = String::new();
        push_text(&mut p, prefix);
        push_repeat(&mut p, ' ', 4);
        assert(p@ =~= prefix@ + seq![' ', ' ', ' ', ' ']);
        let sub = render_indented(n.children.as_slice(), p.as_str());
        push_text(&mut out, sub.as_str());
    } else {
        proof {
            lemma_forest_view(n.children@);
        }
        assert(out@ =~= head + if n.collapsed {
            Seq::empty()
        } else {
            indented_forest(forest_view(n.children@), prefix@ + seq![' ', ' ', ' ', ' '])
        });
    }
    out
}

/// Renders a forest as an indented outline under `prefix`, hiding the
/// children of collapsed nodes.
pub fn render_indented(nodes: &[Node], prefix: &str) -> (r: String)
    ensures
        r@ == indented_forest(forest_view(nodes@), prefix@),
    decreases nodes@,
{
    let ghost fv = forest_view(nodes@);
    proof {
        lemma_forest_view(nodes@);
    }
    let mut out = String::new();
    let mut i: usize = 0;
    assert(nodes@.take(0) =~= Seq::<Node>::empty());
    while i < nodes.len()
        invariant
            i <= nodes@.len(),
            fv == forest_view(nodes@),
            fv.len() == nodes@.len(),
            forall|j: int| 0 <= j < nodes@.len() ==> #[trigger] fv[j] == node_view(nodes@[j]),
            out@ == indented_forest(forest_view(nodes@.take(i as int)), prefix@),
        decreases nodes@.len() - i,
    {
        let n = &nodes[i];
        let ghost nv = node_view(*n);
        let ghost before = out@;
        let ghost prev = forest_view(nodes@.take(i as int));
        assert(nodes@.take(i + 1).drop_last() =~= nodes@.take(i as int));
        assert(forest_view(nodes@.take(i + 1)) == prev.push(nv));
        assert(prev.push(nv).drop_last() =~= prev);
        proof {
            assert(decreases_to!(nodes@ => nodes@[i as int]));
        }
        let sub = render_indented_node(n, prefix);
        push_text(&mut out, sub.as_str());
        i = i + 1;
        assert(out@ =~= indented_forest(forest_view(nodes@.take(i as int)), prefix@));
    }
    assert(nodes@.take(i as int) =~= nodes@);
    out
}

} // verus!
