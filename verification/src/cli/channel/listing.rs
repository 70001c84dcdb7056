//! Listings of the hierarchy: the nodes below a node, or all nodes under
//! it, one line each.

use super::directory::ChannelDirectory;
use super::node::node_ok;
use super::node::tree_wf;
use super::node::NodeView;
use crate::text::texts;
use vstd::prelude::*;
use vstd::string::StringExecFns;

verus! {

/// The path of the node at place `n` from the top: a `/` and a name for the
/// node and for each node above it, from the top down. The top itself has
/// the empty path.
pub open spec fn abs_path(t: Seq<NodeView>, n: int) -> Seq<char>
    decreases n,
{
    if 0 < n && t[n].parent is Some && t[n].parent->0 < n {
        abs_path(t, t[n].parent->0 as int) + "/"@ + t[n].name
    } else {
        Seq::empty()
    }
}

/// One line for each node below the node at place `n`, in their order: the
/// prefix, a `/` and the name.
pub open spec fn child_lines(t: Seq<NodeView>, n: int, prefix: Seq<char>) -> Seq<Seq<char>> {
    Seq::new(t[n].children.len(), |k: int| prefix + "/"@ + t[t[n].children[k] as int].name)
}

/// The lines for the nodes that the node at place `n` lists below it from
/// the `k`-th on, each followed by the lines of all that is under it: a
/// node's line is the line of the node above it (for those below `n`, the
/// prefix), a `/` and its name.
pub open spec fn lines_from(t: Seq<NodeView>, n: int, prefix: Seq<char>, k: int) -> Seq<Seq<char>>
    decreases t.len() - n, t[n].children.len() - k,
{
    if k < 0 || k >= t[n].children.len() {
        Seq::empty()
    } else {
        let c = t[n].children[k] as int;
        let line = prefix + "/"@ + t[c].name;
        let under = if n < c < t.len() {
            lines_from(t, c, line, 0)
        } else {
            Seq::empty()
        };
        seq![line] + under + lines_from(t, n, prefix, k + 1)
    }
}

/// The lines for all nodes under the node at place `n`: each node before
/// those under it, the nodes below one node in their order.
pub open spec fn subtree_lines(t: Seq<NodeView>, n: int, prefix: Seq<char>) -> Seq<Seq<char>> {
    lines_from(t, n, prefix, 0)
}

/// What the lines of a plain listing begin with: the path of the node if
/// full paths are asked for, else nothing.
pub open spec fn list_prefix(t: Seq<NodeView>, n: int, full: bool) -> Seq<char> {
    if full {
        abs_path(t, n)
    } else {
        Seq::empty()
    }
}

/// What the lines of a listing of everything under a node begin with: the
/// path of the node if full paths are asked for; else nothing at the top and
/// `.` at any other node.
pub open spec fn list_r_prefix(t: Seq<NodeView>, n: int, full: bool) -> Seq<char> {
    if full {
        abs_path(t, n)
    } else if t[n].parent is None {
        Seq::empty()
    } else {
        "."@
    }
}

impl ChannelDirectory {
    /// Whether the node at the given place is the top.
    pub fn is_root(&self, node: usize) -> (top: bool)
        requires
            node < self@.len(),
        ensures
            top == (node == 0),
            top == (self@[node as int].parent is None),
    {
        let n = self.len();
        assert(node_ok(self@, node as int));
        self.node(node).is_root()
    }

    /// The path of the node from the top, empty for the top itself.
    pub fn get_parent_full_path(&self, node: usize) -> (path: String)
        requires
            node < self@.len(),
        ensures
            path@ == abs_path(self@, node as int),
    {
        let n = self.len();
        let ghost t = self@;
        assert(node_ok(t, node as int));
        if self.node(node).is_root() {
            return String::new();
        }
        let mut path = self.node(node).name.clone();
        let mut parent = self.node(node).parent.unwrap();
        assert(abs_path(t, node as int) == abs_path(t, parent as int) + "/"@ + path@);
        assert(node_ok(t, parent as int));
        while !self.node(parent).is_root()
            invariant
                t == self@,
                tree_wf(t),
                parent < t.len(),
                abs_path(t, node as int) == abs_path(t, parent as int) + "/"@ + path@,
            decreases parent,
        {
            assert(node_ok(t, parent as int));
            let above = self.node(parent).parent.unwrap();
            let longer = self.node(parent).name.clone().concat("/").concat(path.as_str());
            proof {
                let a = abs_path(t, above as int);
                let name = t[parent as int].name;
                assert(abs_path(t, parent as int) == a + "/"@ + name);
                assert((a + "/"@ + name) + "/"@ + path@ =~= a + "/"@ + (name + "/"@ + path@));
            }
            path = longer;
            parent = above;
        }
        proof {
            assert(node_ok(t, parent as int));
            assert(abs_path(t, parent as int) =~= Seq::<char>::empty());
            assert(Seq::<char>::empty() + "/"@ + path@ =~= "/"@ + path@);
        }
        "/".to_owned().concat(path.as_str())
    }

    /// One line for each node below the given node, in their order: a `/`
    /// and the name, after the path of the given node if `full` is set.
    pub fn list(&self, node: usize, full: bool) -> (lines: Vec<String>)
        requires
            node < self@.len(),
        ensures
            texts(lines@) == child_lines(
                self@,
                node as int,
                list_prefix(self@, node as int, full),
            ),
    {
        let n = self.len();
        let ghost t = self@;
        let prefix = if full {
            self.get_parent_full_path(node)
        } else {
            String::new()
        };
        let count = self.node(node).children.len();
        let mut lines: Vec<String> = Vec::new();
        let mut k: usize = 0;
        while k < count
            invariant
                t == self@,
                tree_wf(t),
                node < t.len(),
                count == t[node as int].children.len(),
                0 <= k <= count,
                lines.len() == k,
                forall|i: int|
                    0 <= i < k ==> (#[trigger] lines[i])@ == prefix@ + "/"@ + t[t[node
                        as int].children[i] as int].name,
            decreases count - k,
        {
            assert(node_ok(t, node as int));
            let c = self.node(node).children[k];
            assert(t[node as int].children[k as int] == c);
            let line = prefix.clone().concat("/").concat(self.node(c).name.as_str());
            lines.push(line);
            k += 1;
        }
        assert(texts(lines@) =~= child_lines(t, node as int, prefix@));
        lines
    }

    /// Adds to `lines` the lines of all nodes under the given node.
    fn _list_r(&self, node: usize, parent: &str, lines: &mut Vec<String>)
        requires
            node < self@.len(),
        ensures
            texts(final(lines)@) == texts(old(lines)@) + subtree_lines(
                self@,
                node as int,
                parent@,
            ),
        decreases self@.len() - node,
    {
        let n = self.len();
        let ghost t = self@;
        let ghost before = texts(lines@);
        let count = self.node(node).children.len();
        let mut k: usize = 0;
        assert(before + lines_from(t, node as int, parent@, count as int) =~= before);
        while k < count
            invariant
                t == self@,
                tree_wf(t),
                node < t.len(),
                count == t[node as int].children.len(),
                0 <= k <= count,
                texts(lines@) + lines_from(t, node as int, parent@, k as int) == before
                    + lines_from(t, node as int, parent@, 0),
            decreases count - k,
        {
            assert(node_ok(t, node as int));
            let c = self.node(node).children[k];
            assert(t[node as int].children[k as int] == c);
            let cur = String::from_str(parent).concat("/").concat(self.node(c).name.as_str());
            let ghost sofar = texts(lines@);
            let ghost line = cur@;
            lines.push(cur.clone());
            assert(texts(lines@) =~= sofar + seq![line]);
            self._list_r(c, cur.as_str(), lines);
            proof {
                let under = lines_from(t, c as int, line, 0);
                let rest = lines_from(t, node as int, parent@, k + 1);
                assert(lines_from(t, node as int, parent@, k as int) == seq![line] + under
                    + rest);
                assert(((sofar + seq![line]) + under) + rest =~= sofar + (seq![line] + under
                    + rest));
            }
            k += 1;
        }
        assert(texts(lines@) + Seq::<Seq<char>>::empty() =~= texts(lines@));
    }

    /// One line for each node under the given node, a node before those
    /// under it and the nodes below one node in their order. A line is the
    /// names on the way down from the given node, each after a `/`; before
    /// them stands the path of the given node if `full` is set, else a `.`
    /// unless the given node is the top.
    pub fn list_r(&self, node: usize, full: bool) -> (lines: Vec<String>)
        requires
            node < self@.len(),
        ensures
            texts(lines@) == subtree_lines(
                self@,
                node as int,
                list_r_prefix(self@, node as int, full),
            ),
    {
        let parent = if full {
            self.get_parent_full_path(node)
        } else if self.is_root(node) {
            String::new()
        } else {
            ".".to_owned()
        };
        let mut lines: Vec<String> = Vec::new();
        assert(texts(lines@) =~= Seq::<Seq<char>>::empty());
        self._list_r(node, parent.as_str(), &mut lines);
        assert(Seq::<Seq<char>>::empty() + subtree_lines(self@, node as int, parent@)
            =~= subtree_lines(self@, node as int, parent@));
        lines
    }
}

/// To put `p` before the prefix of a listing is to put it before each of
/// its lines.
pub proof fn lemma_lines_shift(t: Seq<NodeView>, n: int, p: Seq<char>, q: Seq<char>, k: int)
    ensures
        lines_from(t, n, p + q, k).len() == lines_from(t, n, q, k).len(),
        forall|i: int|
            0 <= i < lines_from(t, n, q, k).len() ==> #[trigger] lines_from(t, n, p + q, k)[i] == p
                + lines_from(t, n, q, k)[i],
    decreases t.len() - n, t[n].children.len() - k,
{
    if 0 <= k < t[n].children.len() {
        let c = t[n].children[k] as int;
        let line_q = q + "/"@ + t[c].name;
        let line_pq = (p + q) + "/"@ + t[c].name;
        assert(line_pq =~= p + line_q);
        let under_q = if n < c < t.len() {
            lines_from(t, c, line_q, 0)
        } else {
            Seq::empty()
        };
        let under_pq = if n < c < t.len() {
            lines_from(t, c, line_pq, 0)
        } else {
            Seq::empty()
        };
        if n < c < t.len() {
            lemma_lines_shift(t, c, p, line_q, 0);
        }
        lemma_lines_shift(t, n, p, q, k + 1);
        let rest_q = lines_from(t, n, q, k + 1);
        let rest_pq = lines_from(t, n, p + q, k + 1);
        let all_q = seq![line_q] + under_q + rest_q;
        let all_pq = seq![line_pq] + under_pq + rest_pq;
        assert(lines_from(t, n, q, k) == all_q);
        assert(lines_from(t, n, p + q, k) == all_pq);
        assert forall|i: int| 0 <= i < all_q.len() implies #[trigger] all_pq[i] == p + all_q[i] by {
            if i == 0 {
            } else if i < 1 + under_q.len() {
                assert(all_q[i] == under_q[i - 1]);
                assert(all_pq[i] == under_pq[i - 1]);
            } else {
                assert(all_q[i] == rest_q[i - 1 - under_q.len()]);
                assert(all_pq[i] == rest_pq[i - 1 - under_pq.len()]);
            }
        }
    }
}

/// The listing of everything under a node has the same number of lines with
/// full paths as without, and line by line the two differ only in what they
/// begin with: the path of the node in the one, `.` or nothing in the other,
/// before the same names.
pub proof fn lemma_full_and_relative_lines(t: Seq<NodeView>, n: int)
    ensures
        ({
            let full = subtree_lines(t, n, list_r_prefix(t, n, true));
            let relative = subtree_lines(t, n, list_r_prefix(t, n, false));
            let names = subtree_lines(t, n, Seq::empty());
            &&& full.len() == relative.len()
            &&& full.len() == names.len()
            &&& forall|i: int|
                0 <= i < names.len() ==> #[trigger] full[i] == list_r_prefix(t, n, true) + names[i]
            &&& forall|i: int|
                0 <= i < names.len() ==> #[trigger] relative[i] == list_r_prefix(t, n, false)
                    + names[i]
        }),
{
    let e = Seq::<char>::empty();
    let a = list_r_prefix(t, n, true);
    let r = list_r_prefix(t, n, false);
    assert(a + e =~= a);
    assert(r + e =~= r);
    lemma_lines_shift(t, n, a, e, 0);
    lemma_lines_shift(t, n, r, e, 0);
}

} // verus!
