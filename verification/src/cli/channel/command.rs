//! The channel commands: what `list` prints and where `cd` goes.

use super::construct::is_tree_of;
use super::cursor::resolve;
use super::cursor::ChannelTree;
use super::directory::ChannelDirectory;
use super::listing::child_lines;
use super::listing::list_prefix;
use super::listing::list_r_prefix;
use super::listing::subtree_lines;
use super::node::NodeView;
use super::path::path_segments;
use super::record::get_channels_mp;
use super::record::records_by_id;
use crate::text::texts;
use super::record::ChannelLike;
use crate::error::MyError;
use vstd::prelude::*;

verus! {

/// The ids of the channels that have no channel above them, in the order of
/// `channels`.
pub open spec fn top_level_ids(channels: Seq<ChannelLike>) -> Seq<Seq<char>>
    decreases channels.len(),
{
    if channels.len() == 0 {
        Seq::empty()
    } else if channels.last().parent_id is None {
        top_level_ids(channels.drop_last()).push(channels.last().id@)
    } else {
        top_level_ids(channels.drop_last())
    }
}

/// A cursor at the top of the hierarchy of the given channels: the channels
/// without a channel above them stand below the top.
pub fn get_channel_tree(channels: Vec<ChannelLike>) -> (tree: ChannelTree)
    ensures
        is_tree_of(tree@.tree, records_by_id(channels@), top_level_ids(channels@)),
        tree@.current == 0,
{
    let mut root_channel_ids: Vec<String> = Vec::new();
    let mut i: usize = 0;
    while i < channels.len()
        invariant
            0 <= i <= channels.len(),
            texts(root_channel_ids@) == top_level_ids(channels@.take(i as int)),
        decreases channels.len() - i,
    {
        let ghost before = texts(root_channel_ids@);
        proof {
            assert(channels@.take(i + 1).drop_last() =~= channels@.take(i as int));
            assert(channels@.take(i + 1).last() == channels[i as int]);
        }
        if channels[i].parent_id.is_none() {
            root_channel_ids.push(channels[i].id.clone());
            assert(texts(root_channel_ids@) =~= before.push(channels[i as int].id@));
        }
        i += 1;
    }
    assert(channels@.take(channels.len() as int) =~= channels@);
    let mp = get_channels_mp(channels);
    ChannelTree::new(ChannelDirectory::build(&mp, root_channel_ids))
}

/// The segments of the path that a command was given, none if it was given
/// no path.
pub open spec fn command_segments(channel_name: Option<&str>) -> Seq<Seq<char>> {
    match channel_name {
        Some(name) => path_segments(name@),
        None => Seq::empty(),
    }
}

/// What `list` prints for the node at place `n`.
pub open spec fn listing(t: Seq<NodeView>, n: int, full: bool, recursive: bool) -> Seq<Seq<char>> {
    if recursive {
        subtree_lines(t, n, list_r_prefix(t, n, full))
    } else {
        child_lines(t, n, list_prefix(t, n, full))
    }
}

/// Runs a channel command and gives the lines to print.
///
/// `list` prints the listing of the node that the path leads to from the
/// current node (of the current node if no path is given) and leaves the
/// cursor where it is. `cd` moves the cursor along the path and prints
/// nothing. Any other command does nothing. A path that leads nowhere
/// gives its error and leaves the cursor where it is.
pub fn channel(
    tree: &mut ChannelTree,
    cmd: &str,
    channel_name: Option<&str>,
    full: bool,
    recursive: bool,
) -> (result: Result<Vec<String>, MyError>)
    requires
        cmd@ == "cd"@ ==> channel_name is Some,
    ensures
        final(tree)@.tree == old(tree)@.tree,
        ({
            let found = resolve(
                old(tree)@.tree,
                old(tree)@.current,
                command_segments(channel_name),
            );
            if cmd@ == "list"@ {
                &&& final(tree)@.current == old(tree)@.current
                &&& match found {
                    Ok(end) => (result matches Ok(lines) && texts(lines@) == listing(
                        old(tree)@.tree,
                        end as int,
                        full,
                        recursive,
                    )),
                    Err(e) => (result matches Err(err) && err@ == e),
                }
            } else if cmd@ == "cd"@ {
                match found {
                    Ok(end) => final(tree)@.current == end && (result matches Ok(lines)
                        && lines@.len() == 0),
                    Err(e) => final(tree)@.current == old(tree)@.current
                        && (result matches Err(err) && err@ == e),
                }
            } else {
                &&& final(tree)@.current == old(tree)@.current
                &&& (result matches Ok(lines) && lines@.len() == 0)
            }
        }),
{
    let command = cmd.to_owned();
    if command == "list".to_owned() {
        let at = match channel_name {
            Some(name) => match tree.name_to_place(name) {
                Ok(place) => place,
                Err(e) => {
                    return Err(e);
                },
            },
            None => tree.current(),
        };
        let lines = if recursive {
            tree.directory().list_r(at, full)
        } else {
            tree.directory().list(at, full)
        };
        Ok(lines)
    } else if command == "cd".to_owned() {
        match channel_name {
            Some(name) => match tree.go_path(name) {
                Ok(()) => Ok(Vec::new()),
                Err(e) => Err(e),
            },
            None => Ok(Vec::new()),
        }
    } else {
        Ok(Vec::new())
    }
}

} // verus!
