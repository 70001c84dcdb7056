//! The cursor: a hierarchy with a current channel, moved by path.

use super::directory::ChannelDirectory;
use super::node::depth;
use super::node::is_below;
use super::node::lists;
use super::node::node_ok;
use super::node::tree_wf;
use super::node::ChannelTreeNode;
use super::node::NodeView;
use super::path::path_segments;
use super::path::split_path;
use crate::text::texts;
use crate::error::ErrorView;
use crate::error::MyError;
use vstd::prelude::*;

verus! {

/// The first node with the given name among those that the node at place
/// `n` lists below it from the `k`-th on.
pub open spec fn named_from(t: Seq<NodeView>, n: int, name: Seq<char>, k: int) -> Option<usize>
    decreases t[n].children.len() - k,
{
    if k < 0 || k >= t[n].children.len() {
        None
    } else if t[t[n].children[k] as int].name == name {
        Some(t[n].children[k])
    } else {
        named_from(t, n, name, k + 1)
    }
}

/// The first node below the node at place `n` that has the given name.
pub open spec fn child_named(t: Seq<NodeView>, n: int, name: Seq<char>) -> Option<usize> {
    named_from(t, n, name, 0)
}

/// Where one segment leads from the node at place `cur`: `/` to the top,
/// `..` to the node above, any other to the first node below with that
/// name.
pub open spec fn step(t: Seq<NodeView>, cur: usize, segment: Seq<char>) -> Result<
    usize,
    ErrorView,
> {
    if segment == "/"@ {
        Ok(0)
    } else if segment == ".."@ {
        match t[cur as int].parent {
            Some(p) => Ok(p),
            None => Err(ErrorView::NoParent),
        }
    } else {
        match child_named(t, cur as int, segment) {
            Some(c) => Ok(c),
            None => Err(ErrorView::ChannelNotFound(segment)),
        }
    }
}

/// Where the segments lead from the node at place `cur`, taken from left to
/// right, or the error of the first one that leads nowhere.
pub open spec fn resolve(t: Seq<NodeView>, cur: usize, segments: Seq<Seq<char>>) -> Result<
    usize,
    ErrorView,
>
    decreases segments.len(),
{
    if segments.len() == 0 {
        Ok(cur)
    } else {
        match step(t, cur, segments[0]) {
            Ok(next) => resolve(t, next, segments.drop_first()),
            Err(e) => Err(e),
        }
    }
}

/// `k` segments `..`.
pub open spec fn ups(k: nat) -> Seq<Seq<char>> {
    Seq::new(k, |i: int| ".."@)
}

/// A hierarchy and the place of the current node in it.
pub struct CursorView {
    pub tree: Seq<NodeView>,
    pub current: usize,
}

/// A hierarchy of channels with a current channel.
pub struct ChannelTree {
    root: ChannelDirectory,
    current: usize,
}

impl View for ChannelTree {
    type V = CursorView;

    closed spec fn view(&self) -> CursorView {
        CursorView { tree: self.root@, current: self.current }
    }
}

impl ChannelTree {
    /// The current node is a node of the hierarchy.
    #[verifier::type_invariant]
    pub closed spec fn in_tree(&self) -> bool {
        self.current < self.root@.len()
    }

    /// A cursor on `root`, at its top.
    pub fn new(root: ChannelDirectory) -> (tree: Self)
        ensures
            tree@.tree == root@,
            tree@.current == 0,
            tree_wf(tree@.tree),
    {
        let n = root.len();
        Self { root, current: 0 }
    }

    /// The hierarchy that the cursor walks.
    pub fn directory(&self) -> (directory: &ChannelDirectory)
        ensures
            directory@ == self@.tree,
            tree_wf(self@.tree),
            self@.current < self@.tree.len(),
    {
        proof {
            use_type_invariant(self);
            use_type_invariant(&self.root);
        }
        &self.root
    }

    /// The place of the current node.
    pub fn current(&self) -> (place: usize)
        ensures
            place == self@.current,
            place < self@.tree.len(),
    {
        proof {
            use_type_invariant(self);
        }
        self.current
    }

    /// The node at the top.
    pub fn root(&self) -> (node: &ChannelTreeNode)
        ensures
            self@.tree.len() > 0,
            node@ == self@.tree[0],
    {
        self.root.root()
    }

    /// The current node.
    pub fn cur(&self) -> (node: &ChannelTreeNode)
        ensures
            self@.current < self@.tree.len(),
            node@ == self@.tree[self@.current as int],
    {
        proof {
            use_type_invariant(self);
        }
        self.root.node(self.current)
    }

    /// Moves to the top.
    pub fn go_root(&mut self)
        ensures
            final(self)@.tree == old(self)@.tree,
            final(self)@.current == 0,
    {
        let n = self.root.len();
        self.current = 0;
    }

    /// Moves to the first node below the current one that has the given
    /// name; stays where it is if there is none.
    pub fn go_down(&mut self, name: &str) -> (result: Result<(), MyError>)
        ensures
            final(self)@.tree == old(self)@.tree,
            match child_named(old(self)@.tree, old(self)@.current as int, name@) {
                Some(c) => result is Ok && final(self)@.current == c,
                None => result matches Err(e) && e@ == ErrorView::ChannelNotFound(name@)
                    && final(self)@.current == old(self)@.current,
            },
    {
        proof {
            use_type_invariant(&*self);
            use_type_invariant(&self.root);
        }
        let wanted = name.to_owned();
        let ghost t = self.root@;
        let ghost at = self.current as int;
        let count = self.root.node(self.current).children.len();
        let mut k: usize = 0;
        while k < count
            invariant
                0 <= k <= count,
                count == t[at].children.len(),
                self.root@ == t,
                self.current == at,
                t == old(self)@.tree,
                at == old(self)@.current,
                at < t.len(),
                tree_wf(t),
                wanted@ == name@,
                child_named(t, at, name@) == named_from(t, at, name@, k as int),
            decreases count - k,
        {
            let c = self.root.node(self.current).children[k];
            assert(node_ok(t, at));
            assert(t[at].children[k as int] == c);
            if self.root.node(c).name == wanted {
                self.current = c;
                return Ok(());
            }
            k += 1;
        }
        Err(MyError::ChannelNotFound(wanted))
    }

    /// Moves to the node above the current one; stays where it is at the
    /// top.
    pub fn go_up(&mut self) -> (result: Result<(), MyError>)
        ensures
            final(self)@.tree == old(self)@.tree,
            match old(self)@.tree[old(self)@.current as int].parent {
                Some(p) => result is Ok && final(self)@.current == p,
                None => result matches Err(e) && e@ == ErrorView::NoParent && final(self)@.current
                    == old(self)@.current,
            },
    {
        proof {
            use_type_invariant(&*self);
            use_type_invariant(&self.root);
            assert(node_ok(self.root@, self.current as int));
        }
        match self.root.node(self.current).parent {
            Some(p) => {
                self.current = p;
                Ok(())
            },
            None => Err(MyError::NoParent),
        }
    }

    /// Moves one segment: `/` to the top, `..` up, any other down to the
    /// node of that name.
    pub fn go_step(&mut self, segment: &String) -> (result: Result<(), MyError>)
        ensures
            final(self)@.tree == old(self)@.tree,
            match step(old(self)@.tree, old(self)@.current, segment@) {
                Ok(next) => result is Ok && final(self)@.current == next,
                Err(e) => result matches Err(err) && err@ == e
                    && final(self)@.current == old(self)@.current,
            },
    {
        let top = "/".to_owned();
        let up = "..".to_owned();
        if *segment == top {
            self.go_root();
            Ok(())
        } else if *segment == up {
            self.go_up()
        } else {
            self.go_down(segment.as_str())
        }
    }

    /// Follows the path from the current node, segment by segment from left
    /// to right. If a segment leads nowhere, the cursor is where it was
    /// before the call and the error of that segment is returned.
    pub fn go_path(&mut self, channel_name: &str) -> (result: Result<(), MyError>)
        ensures
            final(self)@.tree == old(self)@.tree,
            match resolve(old(self)@.tree, old(self)@.current, path_segments(channel_name@)) {
                Ok(end) => result is Ok && final(self)@.current == end,
                Err(e) => result matches Err(err) && err@ == e
                    && final(self)@.current == old(self)@.current,
            },
    {
        proof {
            use_type_invariant(&*self);
        }
        let cur = self.current;
        let segments = split_path(channel_name);
        let ghost t = self@.tree;
        let ghost all = path_segments(channel_name@);
        let mut i: usize = 0;
        assert(all.skip(0) =~= all);
        while i < segments.len()
            invariant
                0 <= i <= segments.len(),
                texts(segments@) == all,
                all == path_segments(channel_name@),
                self@.tree == t,
                t == old(self)@.tree,
                cur == old(self)@.current,
                cur < t.len(),
                resolve(t, cur, all) == resolve(t, self@.current, all.skip(i as int)),
            decreases segments.len() - i,
        {
            proof {
                let rest = all.skip(i as int);
                assert(rest[0] == segments[i as int]@);
                assert(rest.drop_first() =~= all.skip(i + 1));
                assert(resolve(t, self@.current, rest) == match step(t, self@.current, rest[0]) {
                    Ok(next) => resolve(t, next, rest.drop_first()),
                    Err(e) => Err(e),
                });
            }
            match self.go_step(&segments[i]) {
                Ok(()) => {},
                Err(e) => {
                    self.current = cur;
                    return Err(e);
                },
            }
            i += 1;
        }
        Ok(())
    }

    /// The place of the node that the path leads to from the current node.
    /// The cursor stays where it is, whether the path leads somewhere or
    /// not.
    pub fn name_to_place(&mut self, channel_name: &str) -> (result: Result<usize, MyError>)
        ensures
            final(self)@ == old(self)@,
            match resolve(old(self)@.tree, old(self)@.current, path_segments(channel_name@)) {
                Ok(end) => result == Ok::<usize, MyError>(end) && end < old(self)@.tree.len(),
                Err(e) => result matches Err(err) && err@ == e,
            },
    {
        proof {
            use_type_invariant(&*self);
        }
        let cur = self.current;
        match self.go_path(channel_name) {
            Ok(()) => {},
            Err(e) => {
                return Err(e);
            },
        }
        proof {
            use_type_invariant(&*self);
        }
        let place = self.current;
        self.current = cur;
        Ok(place)
    }

    /// The id of the node that the path leads to from the current node.
    /// The cursor stays where it is, whether the path leads somewhere or
    /// not.
    pub fn name_to_id(&mut self, channel_name: &str) -> (result: Result<String, MyError>)
        ensures
            final(self)@ == old(self)@,
            match resolve(old(self)@.tree, old(self)@.current, path_segments(channel_name@)) {
                Ok(end) => result matches Ok(id) && id@ == old(self)@.tree[end as int].id && end
                    < old(self)@.tree.len(),
                Err(e) => result matches Err(err) && err@ == e,
            },
    {
        match self.name_to_place(channel_name) {
            Ok(place) => Ok(self.root.node(place).id.clone()),
            Err(e) => Err(e),
        }
    }
}

/// In a tree a step from one of its nodes leads to one of its nodes.
pub proof fn lemma_step_in_tree(t: Seq<NodeView>, cur: usize, segment: Seq<char>)
    requires
        tree_wf(t),
        cur < t.len(),
    ensures
        step(t, cur, segment) matches Ok(next) ==> next < t.len(),
{
    assert(node_ok(t, cur as int));
    if segment != "/"@ && segment != ".."@ {
        lemma_named_from(t, cur as int, segment, 0);
    }
}

/// What `named_from` finds is listed below the node and has the name, and
/// no node listed before it from the `k`-th on has; it finds nothing only
/// if none has.
pub proof fn lemma_named_from(t: Seq<NodeView>, n: int, name: Seq<char>, k: int)
    requires
        tree_wf(t),
        0 <= n < t.len(),
        0 <= k,
    ensures
        match named_from(t, n, name, k) {
            Some(c) => exists|j: int|
                k <= j < t[n].children.len() && #[trigger] t[n].children[j] == c && t[c as int].name
                    == name && n < c < t.len() && is_below(t, c as int, n) && forall|i: int|
                    k <= i < j ==> t[#[trigger] t[n].children[i] as int].name != name,
            None => forall|i: int|
                k <= i < t[n].children.len() ==> t[#[trigger] t[n].children[i] as int].name
                    != name,
        },
    decreases t[n].children.len() - k,
{
    assert(node_ok(t, n));
    if k < t[n].children.len() {
        if t[t[n].children[k] as int].name == name {
            assert(t[n].children[k] == t[n].children[k]);
        } else {
            lemma_named_from(t, n, name, k + 1);
            match named_from(t, n, name, k + 1) {
                Some(c) => {
                    let j = choose|j: int|
                        k + 1 <= j < t[n].children.len() && #[trigger] t[n].children[j] == c
                            && t[c as int].name == name && n < c < t.len() && is_below(
                            t,
                            c as int,
                            n,
                        ) && forall|i: int|
                            k + 1 <= i < j ==> t[#[trigger] t[n].children[i] as int].name != name;
                    assert forall|i: int| k <= i < j implies t[#[trigger] t[n].children[i] as int].name
                        != name by {}
                    assert(k <= j < t[n].children.len() && t[n].children[j] == c);
                },
                None => {},
            }
        }
    }
}

/// In a tree the segments lead from one of its nodes to one of its nodes.
pub proof fn lemma_resolve_in_tree(t: Seq<NodeView>, cur: usize, segments: Seq<Seq<char>>)
    requires
        tree_wf(t),
        cur < t.len(),
    ensures
        resolve(t, cur, segments) matches Ok(end) ==> end < t.len(),
    decreases segments.len(),
{
    if segments.len() > 0 {
        lemma_step_in_tree(t, cur, segments[0]);
        if let Ok(next) = step(t, cur, segments[0]) {
            lemma_resolve_in_tree(t, next, segments.drop_first());
        }
    }
}

/// Resolving two runs of segments one after the other is resolving the two
/// as one.
pub proof fn lemma_resolve_concat(
    t: Seq<NodeView>,
    cur: usize,
    first: Seq<Seq<char>>,
    second: Seq<Seq<char>>,
)
    ensures
        resolve(t, cur, first + second) == match resolve(t, cur, first) {
            Ok(middle) => resolve(t, middle, second),
            Err(e) => Err(e),
        },
    decreases first.len(),
{
    if first.len() == 0 {
        assert(first + second =~= second);
    } else {
        assert((first + second)[0] == first[0]);
        assert((first + second).drop_first() =~= first.drop_first() + second);
        if let Ok(next) = step(t, cur, first[0]) {
            lemma_resolve_concat(t, next, first.drop_first(), second);
        }
    }
}

/// The path `/` has the one segment `/`, and that segment leads to the top
/// from every node.
pub proof fn lemma_slash_is_top(t: Seq<NodeView>, cur: usize)
    ensures
        path_segments("/"@) == seq!["/"@],
        resolve(t, cur, path_segments("/"@)) == Ok::<usize, ErrorView>(0),
{
    reveal_strlit("/");
    let s = "/"@;
    assert(s.skip(1) =~= Seq::<char>::empty());
    assert(super::path::names_from(Seq::<char>::empty(), false) =~= Seq::<Seq<char>>::empty());
    assert(path_segments(s) =~= seq!["/"@]);
    let one = seq!["/"@];
    assert(one[0] == "/"@);
    assert(one.drop_first() =~= Seq::<Seq<char>>::empty());
    assert(resolve(t, 0, one.drop_first()) == Ok::<usize, ErrorView>(0));
}

/// Resolution from the top does not depend on where the cursor stood
/// before: after the path `/`, taken from the node `a` or from the node `b`,
/// the same segments lead to the same node or fail with the same error.
pub proof fn lemma_root_relative(t: Seq<NodeView>, a: usize, b: usize, segments: Seq<Seq<char>>)
    ensures
        resolve(t, a, path_segments("/"@)) == Ok::<usize, ErrorView>(0),
        resolve(t, b, path_segments("/"@)) == Ok::<usize, ErrorView>(0),
        resolve(t, a, path_segments("/"@) + segments) == resolve(t, 0, segments),
        resolve(t, a, path_segments("/"@) + segments) == resolve(
            t,
            b,
            path_segments("/"@) + segments,
        ),
{
    lemma_slash_is_top(t, a);
    lemma_slash_is_top(t, b);
    lemma_resolve_concat(t, a, path_segments("/"@), segments);
    lemma_resolve_concat(t, b, path_segments("/"@), segments);
}

/// From a node of a tree, as many `..` as the node is deep lead to the top.
pub proof fn lemma_ups_reach_top(t: Seq<NodeView>, n: usize)
    requires
        tree_wf(t),
        n < t.len(),
    ensures
        resolve(t, n, ups(depth(t, n as int))) == Ok::<usize, ErrorView>(0),
    decreases n,
{
    assert(node_ok(t, n as int));
    if n == 0 {
        assert(ups(depth(t, n as int)) =~= Seq::<Seq<char>>::empty());
    } else {
        let p = t[n as int].parent->0;
        let d = depth(t, p as int);
        assert(depth(t, n as int) == d + 1);
        reveal_strlit("/");
        reveal_strlit("..");
        assert(".."@ != "/"@) by {
            assert(".."@.len() == 2);
            assert("/"@.len() == 1);
        }
        let all = ups(d + 1);
        assert(all[0] == ".."@);
        assert(all.drop_first() =~= ups(d));
        assert(step(t, n, all[0]) == Ok::<usize, ErrorView>(p));
        lemma_ups_reach_top(t, p);
    }
}

/// A path that leads from the top to a node, followed by as many `..` as
/// that node is deep, leads back to the top.
pub proof fn lemma_back_to_top(t: Seq<NodeView>, segments: Seq<Seq<char>>)
    requires
        tree_wf(t),
        resolve(t, 0, segments) is Ok,
    ensures
        ({
            let end = resolve(t, 0, segments)->Ok_0;
            &&& end < t.len()
            &&& resolve(t, end, ups(depth(t, end as int))) == Ok::<usize, ErrorView>(0)
            &&& resolve(t, 0, segments + ups(depth(t, end as int))) == Ok::<usize, ErrorView>(0)
        }),
{
    let end = resolve(t, 0, segments)->Ok_0;
    lemma_resolve_in_tree(t, 0, segments);
    lemma_ups_reach_top(t, end);
    lemma_resolve_concat(t, 0, segments, ups(depth(t, end as int)));
}

/// Whether the segment is a name: neither `/` nor `..`.
pub open spec fn is_name(segment: Seq<char>) -> bool {
    segment != "/"@ && segment != ".."@
}

/// A step down by a name and a step up lead back to where they began.
pub proof fn lemma_down_then_up(t: Seq<NodeView>, start: usize, name: Seq<char>)
    requires
        tree_wf(t),
        start < t.len(),
        is_name(name),
        step(t, start, name) is Ok,
    ensures
        resolve(t, start, seq![name, ".."@]) == Ok::<usize, ErrorView>(start),
{
    reveal_strlit("/");
    reveal_strlit("..");
    assert(".."@ != "/"@) by {
        assert(".."@.len() == 2);
        assert("/"@.len() == 1);
    }
    lemma_named_from(t, start as int, name, 0);
    let next = step(t, start, name)->Ok_0;
    let both = seq![name, ".."@];
    assert(both[0] == name);
    assert(both.drop_first() =~= seq![".."@]);
    let up = seq![".."@];
    assert(up[0] == ".."@);
    assert(up.drop_first() =~= Seq::<Seq<char>>::empty());
    assert(step(t, next, ".."@) == Ok::<usize, ErrorView>(start));
    assert(resolve(t, start, up.drop_first()) == Ok::<usize, ErrorView>(start));
    assert(resolve(t, next, up) == Ok::<usize, ErrorView>(start));
}

/// A path of names alone leads as many nodes down as it has names: the
/// node it reaches is that much deeper than the one it started from.
pub proof fn lemma_names_deepen(t: Seq<NodeView>, start: usize, segments: Seq<Seq<char>>)
    requires
        tree_wf(t),
        start < t.len(),
        forall|i: int| 0 <= i < segments.len() ==> is_name(#[trigger] segments[i]),
        resolve(t, start, segments) is Ok,
    ensures
        depth(t, resolve(t, start, segments)->Ok_0 as int) == depth(t, start as int)
            + segments.len(),
    decreases segments.len(),
{
    if segments.len() > 0 {
        assert(is_name(segments[0]));
        lemma_named_from(t, start as int, segments[0], 0);
        let next = step(t, start, segments[0])->Ok_0;
        assert(node_ok(t, next as int));
        assert(depth(t, next as int) == depth(t, start as int) + 1);
        let rest = segments.drop_first();
        assert forall|i: int| 0 <= i < rest.len() implies is_name(#[trigger] rest[i]) by {
            assert(rest[i] == segments[i + 1]);
        }
        lemma_names_deepen(t, next, rest);
    }
}

} // verus!
