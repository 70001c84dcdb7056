//! Building the hierarchy from the flat records: every record that can be
//! reached from the top-level ids becomes one node, once.

use super::directory::ChannelDirectory;
use super::node::is_below;
use super::node::lists;
use super::node::node_ok;
use super::node::node_views;
use super::node::tree_wf;
use super::node::ChannelTreeNode;
use super::node::NodeView;
use crate::text::texts;
use super::record::ChannelLike;
use super::record::ChannelMap;
use super::record::ChannelRecord;
use vstd::prelude::*;

verus! {

/// Whether the record `a` lists `b` below it and both are in `m`.
pub open spec fn has_edge(m: Map<Seq<char>, ChannelRecord>, a: Seq<char>, b: Seq<char>) -> bool {
    m.dom().contains(a) && m.dom().contains(b) && m[a].children.contains(b)
}

/// Whether `p` leads from one of `roots` down the records of `m`, each id
/// listed below the one before it.
pub open spec fn is_path(
    m: Map<Seq<char>, ChannelRecord>,
    roots: Seq<Seq<char>>,
    p: Seq<Seq<char>>,
) -> bool {
    &&& p.len() > 0
    &&& roots.contains(p[0])
    &&& m.dom().contains(p[0])
    &&& forall|i: int| 0 <= i < p.len() - 1 ==> has_edge(m, #[trigger] p[i], p[i + 1])
}

/// Whether the record with the given id can be reached from `roots`.
pub open spec fn reachable(
    m: Map<Seq<char>, ChannelRecord>,
    roots: Seq<Seq<char>>,
    id: Seq<char>,
) -> bool {
    exists|p: Seq<Seq<char>>| #[trigger] is_path(m, roots, p) && p.last() == id
}

/// The ids of the records that can be reached from `roots`.
pub open spec fn reachable_ids(m: Map<Seq<char>, ChannelRecord>, roots: Seq<Seq<char>>) -> Set<
    Seq<char>,
> {
    Set::new(|id: Seq<char>| reachable(m, roots, id))
}

/// Whether a node of `t` other than the top has the given id.
pub open spec fn materialized(t: Seq<NodeView>, id: Seq<char>) -> bool {
    exists|j: int| 0 < j < t.len() && (#[trigger] t[j]).id == id
}

/// The ids that the flat data lists below the node at place `i`: the
/// top-level ids for the top, the children of its record for any other.
pub open spec fn listed_below(
    t: Seq<NodeView>,
    m: Map<Seq<char>, ChannelRecord>,
    roots: Seq<Seq<char>>,
    i: int,
) -> Seq<Seq<char>> {
    if i == 0 {
        roots
    } else {
        m[t[i].id].children
    }
}

/// The first place of `x` in `s`, or the length of `s` if it has none.
pub open spec fn place_in(s: Seq<Seq<char>>, x: Seq<char>) -> int
    decreases s.len(),
{
    if s.len() == 0 {
        0
    } else if s[0] == x {
        0
    } else {
        1 + place_in(s.drop_first(), x)
    }
}

/// Whether the node at place `i` of `t` says what the flat data says: the
/// top is the made-up channel above all others; any other node has the
/// name and the archived flag of the record with its id, is active, and its
/// id is listed below the node above it. The nodes below it come in the
/// order in which the flat data first lists them.
pub open spec fn node_mirrors(
    t: Seq<NodeView>,
    m: Map<Seq<char>, ChannelRecord>,
    roots: Seq<Seq<char>>,
    i: int,
) -> bool {
    &&& t[i].active
    &&& i == 0 ==> t[i].id == ""@ && t[i].name == "dummy"@ && t[i].archived
    &&& i != 0 ==> {
        &&& m.dom().contains(t[i].id)
        &&& t[i].name == m[t[i].id].name
        &&& t[i].archived == m[t[i].id].archived
        &&& listed_below(t, m, roots, t[i].parent->0 as int).contains(t[i].id)
    }
    &&& forall|k1: int, k2: int|
        0 <= k1 < k2 < t[i].children.len() ==> place_in(
            listed_below(t, m, roots, i),
            t[#[trigger] t[i].children[k1] as int].id,
        ) < place_in(listed_below(t, m, roots, i), t[#[trigger] t[i].children[k2] as int].id)
}

/// Whether no two nodes of `t` other than the top have one id.
pub open spec fn distinct_ids(t: Seq<NodeView>) -> bool {
    forall|i: int, j: int| 0 < i < j < t.len() ==> (#[trigger] t[i]).id != (#[trigger] t[j]).id
}

/// Whether `t` is the hierarchy of the records of `m` under the top-level
/// ids `roots`: a tree whose nodes say what the records say, with one node
/// for each record that can be reached and none for any other.
pub open spec fn is_tree_of(
    t: Seq<NodeView>,
    m: Map<Seq<char>, ChannelRecord>,
    roots: Seq<Seq<char>>,
) -> bool {
    &&& tree_wf(t)
    &&& forall|i: int| 0 <= i < t.len() ==> #[trigger] node_mirrors(t, m, roots, i)
    &&& distinct_ids(t)
    &&& forall|id: Seq<char>| #[trigger] materialized(t, id) <==> reachable(m, roots, id)
}

/// `place_in` finds the first place of an element.
pub proof fn lemma_place_in(s: Seq<Seq<char>>, x: Seq<char>, q: int)
    requires
        0 <= q < s.len(),
        s[q] == x,
        forall|j: int| 0 <= j < q ==> s[j] != x,
    ensures
        place_in(s, x) == q,
    decreases q,
{
    if q > 0 {
        assert(s[0] != x);
        let rest = s.drop_first();
        assert(rest[q - 1] == x);
        assert forall|j: int| 0 <= j < q - 1 implies rest[j] != x by {
            assert(rest[j] == s[j + 1]);
        }
        lemma_place_in(rest, x, q - 1);
    }
}

/// A top-level id that has a record can be reached.
pub proof fn lemma_root_reachable(
    m: Map<Seq<char>, ChannelRecord>,
    roots: Seq<Seq<char>>,
    id: Seq<char>,
)
    requires
        roots.contains(id),
        m.dom().contains(id),
    ensures
        reachable(m, roots, id),
{
    let p = seq![id];
    assert(p[0] == id);
    assert(is_path(m, roots, p));
    assert(p.last() == id);
}

/// What a reachable record lists below it, and has a record, can be reached.
pub proof fn lemma_edge_reachable(
    m: Map<Seq<char>, ChannelRecord>,
    roots: Seq<Seq<char>>,
    a: Seq<char>,
    b: Seq<char>,
)
    requires
        reachable(m, roots, a),
        has_edge(m, a, b),
    ensures
        reachable(m, roots, b),
{
    let p = choose|p: Seq<Seq<char>>| #[trigger] is_path(m, roots, p) && p.last() == a;
    let longer = p.push(b);
    assert(longer[0] == p[0]);
    assert forall|i: int| 0 <= i < longer.len() - 1 implies has_edge(m, #[trigger] longer[i], longer[i + 1]) by {
        if i < p.len() - 1 {
            assert(longer[i] == p[i]);
            assert(longer[i + 1] == p[i + 1]);
            assert(has_edge(m, p[i], p[i + 1]));
        } else {
            assert(longer[i] == a);
            assert(longer[i + 1] == b);
        }
    }
    assert(is_path(m, roots, longer));
    assert(longer.last() == b);
}

/// What holds of the nodes while the hierarchy is being built: they form a
/// tree, say what the records say, no id comes twice, and the record of
/// every node can be reached.
spec fn partial_tree(
    t: Seq<NodeView>,
    m: Map<Seq<char>, ChannelRecord>,
    roots: Seq<Seq<char>>,
) -> bool {
    &&& tree_wf(t)
    &&& forall|i: int| 0 <= i < t.len() ==> #[trigger] node_mirrors(t, m, roots, i)
    &&& distinct_ids(t)
    &&& forall|i: int| 0 < i < t.len() ==> reachable(m, roots, (#[trigger] t[i]).id)
}

/// Whether every id that is listed below the node at place `i` and has a
/// record has a node.
spec fn node_closed(
    t: Seq<NodeView>,
    m: Map<Seq<char>, ChannelRecord>,
    roots: Seq<Seq<char>>,
    i: int,
) -> bool {
    forall|q: int|
        0 <= q < listed_below(t, m, roots, i).len() && m.dom().contains(
            #[trigger] listed_below(t, m, roots, i)[q],
        ) ==> materialized(t, listed_below(t, m, roots, i)[q])
}

/// Whether every node but those at the places `open` is closed.
spec fn closed_except(
    t: Seq<NodeView>,
    m: Map<Seq<char>, ChannelRecord>,
    roots: Seq<Seq<char>>,
    open: Set<int>,
) -> bool {
    forall|i: int| 0 <= i < t.len() && !open.contains(i) ==> #[trigger] node_closed(t, m, roots, i)
}

/// Whether `p` holds the place `i`.
spec fn is_place(p: Option<usize>, i: int) -> bool {
    p is Some && p->0 == i
}

/// Whether `t1` is `t0` with nodes added at its end, the old nodes as they
/// were but for the node at place `p`, which lists the first new node as
/// its last child.
spec fn grown(t0: Seq<NodeView>, t1: Seq<NodeView>, p: Option<usize>) -> bool {
    &&& t1.len() > t0.len()
    &&& forall|i: int| 0 <= i < t0.len() && !is_place(p, i) ==> #[trigger] t1[i] == t0[i]
    &&& p matches Some(pi) ==> pi < t0.len() && t1[pi as int] == (NodeView {
        children: t0[pi as int].children.push(t0.len() as usize),
        ..t0[pi as int]
    })
}

/// `t0` with `node` added at its end and listed as the last child of the
/// node at place `p`.
spec fn with_node(t0: Seq<NodeView>, p: Option<usize>, node: NodeView) -> Seq<NodeView> {
    match p {
        None => t0.push(node),
        Some(pi) => t0.update(
            pi as int,
            NodeView { children: t0[pi as int].children.push(t0.len() as usize), ..t0[pi as int] },
        ).push(node),
    }
}

/// The node that is made for the record `rec` below the node at place `p`.
spec fn fresh_node(rec: ChannelRecord, p: Option<usize>) -> NodeView {
    NodeView {
        id: rec.id,
        name: rec.name,
        children: Seq::empty(),
        active: true,
        archived: rec.archived,
        parent: p,
    }
}

/// Growth keeps the id, name, flags and parent of every old node, and so
/// every id that had a node has one.
proof fn lemma_grown_keeps(t0: Seq<NodeView>, t1: Seq<NodeView>, p: Option<usize>)
    requires
        grown(t0, t1, p),
    ensures
        forall|i: int|
            0 <= i < t0.len() ==> (#[trigger] t1[i]).id == t0[i].id && t1[i].name == t0[i].name
                && t1[i].parent == t0[i].parent && t1[i].active == t0[i].active && t1[i].archived
                == t0[i].archived,
        forall|id: Seq<char>| materialized(t0, id) ==> materialized(t1, id),
{
    assert forall|i: int| 0 <= i < t0.len() implies (#[trigger] t1[i]).id == t0[i].id
        && t1[i].name == t0[i].name && t1[i].parent == t0[i].parent && t1[i].active
        == t0[i].active && t1[i].archived == t0[i].archived by {
        if !is_place(p, i) {
            assert(t1[i] == t0[i]);
        }
    }
    assert forall|id: Seq<char>| materialized(t0, id) implies materialized(t1, id) by {
        let j = choose|j: int| 0 < j < t0.len() && (#[trigger] t0[j]).id == id;
        assert(t1[j].id == id);
    }
}

/// Growth upon growth below a new node is growth.
proof fn lemma_grown_twice(
    t0: Seq<NodeView>,
    t1: Seq<NodeView>,
    t2: Seq<NodeView>,
    p: Option<usize>,
    x: usize,
)
    requires
        grown(t0, t1, p),
        grown(t1, t2, Some(x)),
        x >= t0.len(),
    ensures
        grown(t0, t2, p),
{
    assert forall|i: int| 0 <= i < t0.len() && !is_place(p, i) implies #[trigger] t2[i]
        == t0[i] by {
        assert(t2[i] == t1[i]);
        assert(t1[i] == t0[i]);
    }
    if let Some(pi) = p {
        assert(t2[pi as int] == t1[pi as int]);
    }
}

/// What a new node needs so that it can be added below the node at place
/// `pi`: the nodes are a partial tree, closed but at the places `open`; the
/// record has no node yet, is listed below that node after all that it
/// already has below it, and can be reached.
spec fn can_add(
    t0: Seq<NodeView>,
    pi: int,
    rec: ChannelRecord,
    m: Map<Seq<char>, ChannelRecord>,
    roots: Seq<Seq<char>>,
    open: Set<int>,
) -> bool {
    &&& partial_tree(t0, m, roots)
    &&& closed_except(t0, m, roots, open)
    &&& 0 <= pi < t0.len()
    &&& m.dom().contains(rec.id)
    &&& m[rec.id] == rec
    &&& !materialized(t0, rec.id)
    &&& listed_below(t0, m, roots, pi).contains(rec.id)
    &&& reachable(m, roots, rec.id)
    &&& forall|k: int|
        0 <= k < t0[pi].children.len() ==> place_in(
            listed_below(t0, m, roots, pi),
            t0[#[trigger] t0[pi].children[k] as int].id,
        ) < place_in(listed_below(t0, m, roots, pi), rec.id)
}

/// Whether `rec` is the made-up record of the top: no id, the name `dummy`,
/// archived, and the top-level ids below it.
spec fn is_top_record(rec: ChannelRecord, roots: Seq<Seq<char>>) -> bool {
    rec.id == ""@ && rec.name == "dummy"@ && rec.archived && rec.children == roots
}

/// Adding the node of a record keeps the partial tree, with the new node as
/// the only one that is newly open.
proof fn lemma_added(
    t0: Seq<NodeView>,
    p: Option<usize>,
    rec: ChannelRecord,
    m: Map<Seq<char>, ChannelRecord>,
    roots: Seq<Seq<char>>,
    open: Set<int>,
)
    requires
        t0.len() <= usize::MAX,
        p is None ==> t0.len() == 0 && is_top_record(rec, roots),
        p is Some ==> can_add(t0, p->0 as int, rec, m, roots, open),
    ensures
        ({
            let t = with_node(t0, p, fresh_node(rec, p));
            &&& t.len() == t0.len() + 1
            &&& partial_tree(t, m, roots)
            &&& closed_except(t, m, roots, open.insert(t0.len() as int))
            &&& grown(t0, t, p)
            &&& t[t0.len() as int] == fresh_node(rec, p)
            &&& listed_below(t, m, roots, t0.len() as int) == rec.children
        }),
{
    let x = t0.len() as int;
    let t = with_node(t0, p, fresh_node(rec, p));
    assert(t.len() == x + 1);
    assert(t[x] == fresh_node(rec, p));
    match p {
        None => {
            assert(node_ok(t, 0));
            assert(node_mirrors(t, m, roots, 0));
        },
        Some(pu) => {
            let pi = pu as int;
            let src = listed_below(t0, m, roots, pi);
            assert(grown(t0, t, p)) by {
                assert forall|i: int| 0 <= i < t0.len() && !is_place(p, i) implies #[trigger] t[i]
                    == t0[i] by {}
            }
            lemma_grown_keeps(t0, t, p);
            assert forall|i: int| 0 <= i < x implies listed_below(t, m, roots, i) == listed_below(
                t0,
                m,
                roots,
                i,
            ) by {
                assert(t[i].id == t0[i].id);
            }
            assert(node_ok(t0, pi));
            assert forall|i: int| 0 <= i < t.len() implies #[trigger] node_ok(t, i) by {
                if i < x {
                    assert(node_ok(t0, i));
                    assert(t[i].parent == t0[i].parent);
                    if i != 0 {
                        let pp = t0[i].parent->0 as int;
                        let k = choose|k: int|
                            0 <= k < t0[pp].children.len() && #[trigger] t0[pp].children[k] == i;
                        if pp == pi {
                            assert(t[pp].children[k] == t0[pp].children[k]);
                        } else {
                            assert(t[pp] == t0[pp]);
                        }
                        assert(0 <= k < t[pp].children.len() && t[pp].children[k] == i);
                        assert(lists(t, pp, i));
                    }
                    if i == pi {
                        let n = t0[pi].children.len() as int;
                        assert(t[i].children.len() == n + 1);
                        assert forall|k: int| 0 <= k < t[i].children.len() implies {
                            &&& i < #[trigger] t[i].children[k] < t.len()
                            &&& is_below(t, t[i].children[k] as int, i)
                        } by {
                            if k < n {
                                assert(t[i].children[k] == t0[i].children[k]);
                                let c = t0[i].children[k] as int;
                                assert(is_below(t0, c, i));
                                assert(t[c].parent == t0[c].parent);
                            } else {
                                assert(t[i].children[k] == x);
                            }
                        }
                        assert forall|k1: int, k2: int|
                            0 <= k1 < k2 < t[i].children.len() implies #[trigger] t[i].children[k1]
                            < #[trigger] t[i].children[k2] by {
                            assert(t[i].children[k1] == t0[i].children[k1]);
                            if k2 < n {
                                assert(t[i].children[k2] == t0[i].children[k2]);
                            } else {
                                assert(t0[i].children[k1] < t0.len());
                            }
                        }
                    } else {
                        assert(t[i] == t0[i]);
                        assert forall|k: int| 0 <= k < t[i].children.len() implies {
                            &&& i < #[trigger] t[i].children[k] < t.len()
                            &&& is_below(t, t[i].children[k] as int, i)
                        } by {
                            let c = t0[i].children[k] as int;
                            assert(is_below(t0, c, i));
                            assert(t[c].parent == t0[c].parent);
                        }
                    }
                } else {
                    let n = t0[pi].children.len() as int;
                    assert(t[pi].children[n] == x);
                    assert(lists(t, pi, x));
                }
            }
            assert forall|i: int| 0 <= i < t.len() implies #[trigger] node_mirrors(
                t,
                m,
                roots,
                i,
            ) by {
                if i < x {
                    assert(node_mirrors(t0, m, roots, i));
                    assert(node_ok(t0, i));
                    if i != 0 {
                        let pp = t0[i].parent->0 as int;
                        assert(listed_below(t, m, roots, pp) == listed_below(t0, m, roots, pp));
                    }
                    let n = t0[i].children.len() as int;
                    assert forall|k1: int, k2: int|
                        0 <= k1 < k2 < t[i].children.len() implies place_in(
                        listed_below(t, m, roots, i),
                        t[#[trigger] t[i].children[k1] as int].id,
                    ) < place_in(
                        listed_below(t, m, roots, i),
                        t[#[trigger] t[i].children[k2] as int].id,
                    ) by {
                        assert(t[i].children[k1] == t0[i].children[k1]);
                        let c1 = t0[i].children[k1] as int;
                        assert(i < c1 < x);
                        assert(t[c1].id == t0[c1].id);
                        if k2 < n {
                            assert(t[i].children[k2] == t0[i].children[k2]);
                            let c2 = t0[i].children[k2] as int;
                            assert(i < c2 < x);
                            assert(t[c2].id == t0[c2].id);
                        } else {
                            assert(i == pi);
                            assert(t[i].children[k2] == x);
                        }
                    }
                } else {
                    assert(listed_below(t, m, roots, pi) == src);
                }
            }
            assert(distinct_ids(t)) by {
                assert forall|i: int, j: int| 0 < i < j < t.len() implies (#[trigger] t[i]).id != (
                #[trigger] t[j]).id by {
                    assert(t[i].id == t0[i].id);
                    if j < x {
                        assert(t[j].id == t0[j].id);
                    } else {
                        assert(t0[i].id != rec.id);
                    }
                }
            }
            assert forall|i: int| 0 < i < t.len() implies reachable(m, roots, (#[trigger] t[i]).id) by {
                if i < x {
                    assert(t[i].id == t0[i].id);
                }
            }
            assert forall|i: int|
                0 <= i < t.len() && !open.insert(x).contains(i) implies #[trigger] node_closed(
                t,
                m,
                roots,
                i,
            ) by {
                assert(node_closed(t0, m, roots, i));
                assert(listed_below(t, m, roots, i) == listed_below(t0, m, roots, i));
            }
        },
    }
}

/// The ids of the nodes of `t` but the top, in their order.
spec fn node_ids(t: Seq<NodeView>) -> Seq<Seq<char>> {
    Seq::new((t.len() - 1) as nat, |i: int| t[i + 1].id)
}

/// A partial tree has as many nodes below its top as they have ids, and no
/// more than there are records; fewer while a record is left without one.
proof fn lemma_count_bound(
    t: Seq<NodeView>,
    m: Map<Seq<char>, ChannelRecord>,
    roots: Seq<Seq<char>>,
)
    requires
        partial_tree(t, m, roots),
        m.dom().finite(),
    ensures
        node_ids(t).no_duplicates(),
        node_ids(t).to_set().len() == t.len() - 1,
        forall|id: Seq<char>| node_ids(t).to_set().contains(id) <==> materialized(t, id),
        t.len() - 1 <= m.dom().len(),
        forall|id: Seq<char>|
            m.dom().contains(id) && !materialized(t, id) ==> t.len() - 1 < m.dom().len(),
{
    let ids = node_ids(t);
    assert(ids.no_duplicates()) by {
        assert forall|i: int, j: int| 0 <= i < ids.len() && 0 <= j < ids.len() && i != j implies ids[i]
            != ids[j] by {
            if i < j {
                assert(t[i + 1].id != t[j + 1].id);
            } else {
                assert(t[j + 1].id != t[i + 1].id);
            }
        }
    }
    ids.unique_seq_to_set();
    assert forall|id: Seq<char>| ids.to_set().contains(id) <==> materialized(t, id) by {
        if ids.to_set().contains(id) {
            let i = choose|i: int| 0 <= i < ids.len() && ids[i] == id;
            assert(t[i + 1].id == id);
        }
        if materialized(t, id) {
            let j = choose|j: int| 0 < j < t.len() && (#[trigger] t[j]).id == id;
            assert(ids[j - 1] == id);
        }
    }
    assert(ids.to_set().subset_of(m.dom())) by {
        assert forall|id: Seq<char>| ids.to_set().contains(id) implies m.dom().contains(id) by {
            let i = choose|i: int| 0 <= i < ids.len() && ids[i] == id;
            assert(node_mirrors(t, m, roots, i + 1));
        }
    }
    vstd::set_lib::lemma_len_subset(ids.to_set(), m.dom());
    assert forall|id: Seq<char>| m.dom().contains(id) && !materialized(t, id) implies t.len() - 1
        < m.dom().len() by {
        assert(ids.to_set().subset_of(m.dom().remove(id)));
        vstd::set_lib::lemma_len_subset(ids.to_set(), m.dom().remove(id));
    }
}

/// In a partial tree that is closed everywhere, every record at the end of
/// a path has a node.
proof fn lemma_path_materialized(
    t: Seq<NodeView>,
    m: Map<Seq<char>, ChannelRecord>,
    roots: Seq<Seq<char>>,
    p: Seq<Seq<char>>,
)
    requires
        partial_tree(t, m, roots),
        closed_except(t, m, roots, Set::empty()),
        is_path(m, roots, p),
    ensures
        materialized(t, p.last()),
    decreases p.len(),
{
    if p.len() == 1 {
        assert(node_closed(t, m, roots, 0));
        let q = choose|q: int| 0 <= q < roots.len() && roots[q] == p[0];
        assert(listed_below(t, m, roots, 0)[q] == p[0]);
    } else {
        let before = p.drop_last();
        assert(before[0] == p[0]);
        assert forall|i: int| 0 <= i < before.len() - 1 implies has_edge(
            m,
            #[trigger] before[i],
            before[i + 1],
        ) by {
            assert(before[i] == p[i]);
            assert(before[i + 1] == p[i + 1]);
            assert(has_edge(m, p[i], p[i + 1]));
        }
        assert(is_path(m, roots, before));
        lemma_path_materialized(t, m, roots, before);
        let a = before.last();
        let b = p.last();
        assert(a == p[p.len() - 2]);
        assert(has_edge(m, p[p.len() - 2], p[p.len() - 2 + 1]));
        let j = choose|j: int| 0 < j < t.len() && (#[trigger] t[j]).id == a;
        assert(node_closed(t, m, roots, j));
        let q = choose|q: int| 0 <= q < m[a].children.len() && m[a].children[q] == b;
        assert(listed_below(t, m, roots, j)[q] == b);
    }
}

/// A partial tree that is closed everywhere is the hierarchy of the
/// records.
proof fn lemma_closed_is_tree(
    t: Seq<NodeView>,
    m: Map<Seq<char>, ChannelRecord>,
    roots: Seq<Seq<char>>,
)
    requires
        partial_tree(t, m, roots),
        closed_except(t, m, roots, Set::empty()),
    ensures
        is_tree_of(t, m, roots),
{
    assert forall|id: Seq<char>| #[trigger] materialized(t, id) <==> reachable(m, roots, id) by {
        if materialized(t, id) {
            let j = choose|j: int| 0 < j < t.len() && (#[trigger] t[j]).id == id;
            assert(reachable(m, roots, t[j].id));
        }
        if reachable(m, roots, id) {
            let p = choose|p: Seq<Seq<char>>| #[trigger] is_path(m, roots, p) && p.last() == id;
            lemma_path_materialized(t, m, roots, p);
        }
    }
}

/// The hierarchy of a set of records has, below its top, as many nodes as
/// there are records that can be reached from the top-level ids: an id
/// without a record adds none.
pub proof fn lemma_node_count(
    t: Seq<NodeView>,
    m: Map<Seq<char>, ChannelRecord>,
    roots: Seq<Seq<char>>,
)
    requires
        is_tree_of(t, m, roots),
    ensures
        reachable_ids(m, roots).finite(),
        t.len() - 1 == reachable_ids(m, roots).len(),
{
    let ids = node_ids(t);
    assert(ids.no_duplicates()) by {
        assert forall|i: int, j: int| 0 <= i < ids.len() && 0 <= j < ids.len() && i != j implies ids[i]
            != ids[j] by {
            if i < j {
                assert(t[i + 1].id != t[j + 1].id);
            } else {
                assert(t[j + 1].id != t[i + 1].id);
            }
        }
    }
    ids.unique_seq_to_set();
    vstd::seq_lib::seq_to_set_is_finite(ids);
    assert(ids.to_set() =~= reachable_ids(m, roots)) by {
        assert forall|id: Seq<char>| ids.to_set().contains(id) <==> reachable_ids(
            m,
            roots,
        ).contains(id) by {
            if ids.to_set().contains(id) {
                let i = choose|i: int| 0 <= i < ids.len() && ids[i] == id;
                assert(t[i + 1].id == id);
                assert(materialized(t, id));
            }
            if reachable(m, roots, id) {
                assert(materialized(t, id));
                let j = choose|j: int| 0 < j < t.len() && (#[trigger] t[j]).id == id;
                assert(ids[j - 1] == id);
            }
        }
    }
}

/// The ids that are listed by `lister`: the top-level ids if it is `None`,
/// else the children of the record with that id.
pub open spec fn listing_of(
    m: Map<Seq<char>, ChannelRecord>,
    roots: Seq<Seq<char>>,
    lister: Option<Seq<char>>,
) -> Seq<Seq<char>> {
    match lister {
        None => roots,
        Some(a) => m[a].children,
    }
}

/// Whether the flat data lists no id twice: not twice among the top-level
/// ids, not twice below one record, and not in two of these lists.
pub open spec fn listed_once(m: Map<Seq<char>, ChannelRecord>, roots: Seq<Seq<char>>) -> bool {
    forall|l1: Option<Seq<char>>, q1: int, l2: Option<Seq<char>>, q2: int|
        (l1 matches Some(a) ==> m.dom().contains(a)) && (l2 matches Some(b) ==> m.dom().contains(
            b,
        )) && 0 <= q1 < listing_of(m, roots, l1).len() && 0 <= q2 < listing_of(m, roots, l2).len()
            && #[trigger] listing_of(m, roots, l1)[q1] == #[trigger] listing_of(m, roots, l2)[q2]
            ==> l1 == l2 && q1 == q2
}

/// If the flat data lists no id twice, every channel stands in the
/// hierarchy where the data lists it: each id that is listed below a node
/// and has a record is the id of one of the nodes below that node.
pub proof fn lemma_listed_is_child(
    t: Seq<NodeView>,
    m: Map<Seq<char>, ChannelRecord>,
    roots: Seq<Seq<char>>,
    i: int,
    q: int,
)
    requires
        is_tree_of(t, m, roots),
        listed_once(m, roots),
        0 <= i < t.len(),
        0 <= q < listed_below(t, m, roots, i).len(),
        m.dom().contains(listed_below(t, m, roots, i)[q]),
    ensures
        exists|k: int|
            0 <= k < t[i].children.len() && t[#[trigger] t[i].children[k] as int].id
                == listed_below(t, m, roots, i)[q],
{
    let c = listed_below(t, m, roots, i)[q];
    assert(node_mirrors(t, m, roots, i));
    let lister_i: Option<Seq<char>> = if i == 0 {
        None
    } else {
        Some(t[i].id)
    };
    assert(listing_of(m, roots, lister_i) == listed_below(t, m, roots, i));
    if i == 0 {
        lemma_root_reachable(m, roots, c);
    } else {
        assert(materialized(t, t[i].id));
        lemma_edge_reachable(m, roots, t[i].id, c);
    }
    assert(materialized(t, c));
    let j = choose|j: int| 0 < j < t.len() && (#[trigger] t[j]).id == c;
    assert(node_ok(t, j));
    assert(node_mirrors(t, m, roots, j));
    let p = t[j].parent->0 as int;
    assert(node_mirrors(t, m, roots, p));
    let lister_p: Option<Seq<char>> = if p == 0 {
        None
    } else {
        Some(t[p].id)
    };
    assert(listing_of(m, roots, lister_p) == listed_below(t, m, roots, p));
    let q2 = choose|q2: int|
        0 <= q2 < listed_below(t, m, roots, p).len() && listed_below(t, m, roots, p)[q2] == c;
    assert(listing_of(m, roots, lister_i)[q] == listing_of(m, roots, lister_p)[q2]);
    assert(lister_i == lister_p);
    if i != p {
        if i < p {
            assert(t[i].id != t[p].id);
        } else {
            assert(t[p].id != t[i].id);
        }
    }
    assert(lists(t, i, j));
    let k = choose|k: int| 0 <= k < t[i].children.len() && #[trigger] t[i].children[k] == j;
    assert(t[t[i].children[k] as int].id == c);
}

/// Whether a node other than the top has the given id.
fn is_materialized(nodes: &Vec<ChannelTreeNode>, id: &String) -> (found: bool)
    ensures
        found == materialized(node_views(nodes@), id@),
{
    let mut j: usize = 1;
    while j < nodes.len()
        invariant
            1 <= j,
            forall|k: int| 0 < k < j && k < nodes.len() ==> nodes[k].id@ != id@,
        decreases nodes.len() - j,
    {
        if nodes[j].id == *id {
            assert(node_views(nodes@)[j as int].id == id@);
            return true;
        }
        j += 1;
    }
    assert forall|k: int| 0 < k < nodes.len() implies (#[trigger] node_views(nodes@)[k]).id
        != id@ by {}
    false
}

/// Makes the node of the record `ch` below the node at place `p`, then the
/// nodes of the records that `ch` lists below it, each with all below it, in
/// the order of that list. An id without a record is passed over, and so is
/// one that has a node already. Gives the place of the node of `ch`.
fn construct_tree(
    p: Option<usize>,
    ch: &ChannelLike,
    mp: &ChannelMap,
    nodes: &mut Vec<ChannelTreeNode>,
    Ghost(roots): Ghost<Seq<Seq<char>>>,
    Ghost(open): Ghost<Set<int>>,
) -> (place: usize)
    requires
        p is None ==> old(nodes).len() == 0 && is_top_record(ch@, roots),
        p is Some ==> can_add(node_views(old(nodes)@), p->0 as int, ch@, mp@, roots, open),
        forall|g: int| open.contains(g) ==> 0 <= g < old(nodes).len(),
    ensures
        place == old(nodes).len(),
        grown(node_views(old(nodes)@), node_views(final(nodes)@), p),
        partial_tree(node_views(final(nodes)@), mp@, roots),
        closed_except(node_views(final(nodes)@), mp@, roots, open),
        node_views(final(nodes)@)[place as int].id == ch@.id,
    decreases mp@.dom().len() + 1 - old(nodes).len(),
{
    let ghost t0 = node_views(nodes@);
    let ghost src = ch@.children;
    let place = nodes.len();
    let ghost x = place as int;
    let node = ChannelTreeNode::new(ch.id.clone(), ch.name.clone(), Vec::new(), true, ch.archived, p);
    nodes.push(node);
    if let Some(pi) = p {
        nodes[pi].children.push(place);
    }
    proof {
        mp.lemma_keyed_by_id();
        lemma_added(t0, p, ch@, mp@, roots, open);
        assert(node_views(nodes@) =~= with_node(t0, p, fresh_node(ch@, p)));
    }
    let mut q: usize = 0;
    while q < ch.children.len()
        invariant
            mp@.dom().finite(),
            0 <= q <= ch.children.len(),
            src == ch@.children,
            x == place,
            x == t0.len(),
            t0 == node_views(old(nodes)@),
            nodes.len() > place,
            partial_tree(node_views(nodes@), mp@, roots),
            closed_except(node_views(nodes@), mp@, roots, open.insert(x)),
            grown(t0, node_views(nodes@), p),
            node_views(nodes@)[x].id == ch@.id,
            listed_below(node_views(nodes@), mp@, roots, x) == src,
            forall|j: int|
                0 <= j < q && mp@.dom().contains(#[trigger] src[j]) ==> materialized(
                    node_views(nodes@),
                    src[j],
                ),
            forall|k: int|
                0 <= k < node_views(nodes@)[x].children.len() ==> place_in(
                    src,
                    node_views(nodes@)[#[trigger] node_views(nodes@)[x].children[k] as int].id,
                ) < q,
            forall|g: int| open.contains(g) ==> 0 <= g < x,
        decreases ch.children.len() - q,
    {
        let cid = &ch.children[q];
        assert(src[q as int] == cid@);
        match mp.get(cid) {
            Some(rec) => {
                if !is_materialized(nodes, cid) {
                    let ghost t = node_views(nodes@);
                    proof {
                        assert(node_mirrors(t, mp@, roots, x));
                        if x == 0 {
                            lemma_root_reachable(mp@, roots, cid@);
                        } else {
                            assert(reachable(mp@, roots, t[x].id));
                            lemma_edge_reachable(mp@, roots, t[x].id, cid@);
                        }
                        assert forall|j: int| 0 <= j < q implies src[j] != cid@ by {
                            if src[j] == cid@ {
                                assert(mp@.dom().contains(src[j]));
                            }
                        }
                        lemma_place_in(src, cid@, q as int);
                        lemma_count_bound(t, mp@, roots);
                        assert(can_add(t, x, rec@, mp@, roots, open.insert(x)));
                    }
                    construct_tree(
                        Some(place),
                        rec,
                        mp,
                        nodes,
                        Ghost(roots),
                        Ghost(open.insert(x)),
                    );
                    proof {
                        let t2 = node_views(nodes@);
                        let n = t.len() as int;
                        lemma_grown_twice(t0, t, t2, p, place);
                        lemma_grown_keeps(t, t2, Some(place));
                        assert(t2[x].id == t[x].id);
                        assert(t2[n].id == cid@);
                        assert(materialized(t2, cid@));
                        assert(node_ok(t, x));
                        assert forall|k: int| 0 <= k < t2[x].children.len() implies place_in(
                            src,
                            t2[#[trigger] t2[x].children[k] as int].id,
                        ) < q + 1 by {
                            if k < t[x].children.len() {
                                assert(t2[x].children[k] == t[x].children[k]);
                                let c = t[x].children[k] as int;
                                assert(x < c < n);
                                assert(t2[c].id == t[c].id);
                            } else {
                                assert(t2[x].children[k] == n);
                            }
                        }
                    }
                }
            },
            None => {},
        }
        q += 1;
    }
    proof {
        let t = node_views(nodes@);
        assert(node_closed(t, mp@, roots, x));
        assert forall|i: int| 0 <= i < t.len() && !open.contains(i) implies #[trigger] node_closed(
            t,
            mp@,
            roots,
            i,
        ) by {
            if i != x {
                assert(!open.insert(x).contains(i));
            }
        }
    }
    place
}

impl ChannelDirectory {
    /// The hierarchy of the records of `mp` under the top-level ids
    /// `root_ids`. Its top is a made-up channel with no id and the name
    /// `dummy`; below it stand the nodes of the top-level ids, and below each
    /// node those of the ids that its record lists. An id without a record,
    /// or with a node already, is passed over: building never fails.
    pub fn build(mp: &ChannelMap, root_ids: Vec<String>) -> (directory: Self)
        ensures
            is_tree_of(directory@, mp@, texts(root_ids@)),
            directory@.len() - 1 == reachable_ids(mp@, texts(root_ids@)).len(),
    {
        let ghost roots = texts(root_ids@);
        let top = ChannelLike::new("".to_owned(), "dummy".to_owned(), None, root_ids, true);
        let mut nodes: Vec<ChannelTreeNode> = Vec::new();
        construct_tree(None, &top, mp, &mut nodes, Ghost(roots), Ghost(Set::empty()));
        proof {
            lemma_closed_is_tree(node_views(nodes@), mp@, roots);
            lemma_node_count(node_views(nodes@), mp@, roots);
        }
        ChannelDirectory::from_nodes(nodes)
    }
}

} // verus!
