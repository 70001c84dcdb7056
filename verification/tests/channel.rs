use qui::cli::channel::channel;
use qui::cli::channel::get_channel_tree;
use qui::cli::channel::get_channels_mp;
use qui::cli::channel::path::split_path;
use qui::cli::channel::ChannelDirectory;
use qui::cli::channel::ChannelLike;
use qui::cli::channel::ChannelMap;
use qui::cli::channel::ChannelTree;
use qui::cli::channel::ChannelTreeNode;
use qui::error::MyError;

fn record(id: &str, name: &str, parent: Option<&str>, children: &[&str]) -> ChannelLike {
    ChannelLike::new(
        id.to_owned(),
        name.to_owned(),
        parent.map(|p| p.to_owned()),
        children.iter().map(|c| c.to_string()).collect(),
        false,
    )
}

/// A below the top; B and C below A; D below C. Ids are `id-` and the name.
fn sample() -> Vec<ChannelLike> {
    vec![
        record("id-A", "A", None, &["id-B", "id-C"]),
        record("id-B", "B", Some("id-A"), &[]),
        record("id-C", "C", Some("id-A"), &["id-D"]),
        record("id-D", "D", Some("id-C"), &[]),
    ]
}

fn lines(v: &[&str]) -> Vec<String> {
    v.iter().map(|s| s.to_string()).collect()
}

#[test]
fn split_path_cuts_at_slashes() {
    assert_eq!(split_path("A/C"), lines(&["A", "C"]));
    assert_eq!(split_path("/"), lines(&["/"]));
    assert_eq!(split_path("/A//B/"), lines(&["/", "A", "B"]));
    assert_eq!(split_path("../x"), lines(&["..", "x"]));
    assert_eq!(split_path(""), Vec::<String>::new());
}

#[test]
fn split_path_drops_dots_but_a_leading_one() {
    assert_eq!(split_path("A/./B"), lines(&["A", "B"]));
    assert_eq!(split_path("./A"), lines(&[".", "A"]));
    assert_eq!(split_path("/./A"), lines(&["/", "A"]));
    assert_eq!(split_path("A/."), lines(&["A"]));
    assert_eq!(split_path("."), lines(&["."]));
    assert_eq!(split_path(".a/b."), lines(&[".a", "b."]));
}

#[test]
fn split_path_agrees_with_std_path() {
    for p in ["", "/", "a", "/a/b", "a//b/", "./a/./b/.", "..", "/..", "a/../b", "//x", ".//.", "日本/語"] {
        let expected: Vec<String> = std::path::Path::new(p)
            .iter()
            .map(|s| s.to_str().unwrap().to_owned())
            .collect();
        assert_eq!(split_path(p), expected, "path {:?}", p);
    }
}

#[test]
fn map_keeps_the_later_of_two_records_with_one_id() {
    let mp = get_channels_mp(vec![
        record("x", "first", None, &[]),
        record("y", "other", None, &[]),
        record("x", "second", None, &[]),
    ]);
    assert_eq!(mp.len(), 2);
    assert_eq!(mp.get(&"x".to_owned()).unwrap().name, "second");
    assert_eq!(mp.get(&"y".to_owned()).unwrap().name, "other");
    assert!(mp.get(&"z".to_owned()).is_none());
}

#[test]
fn map_insert_replaces() {
    let mut mp = ChannelMap::new();
    assert_eq!(mp.len(), 0);
    mp.insert(record("a", "one", None, &[]));
    mp.insert(record("a", "two", None, &["k"]));
    assert_eq!(mp.len(), 1);
    let got = mp.get(&"a".to_owned()).unwrap();
    assert_eq!(got.name, "two");
    assert_eq!(got.children, lines(&["k"]));
}

#[test]
fn build_makes_one_node_for_each_reachable_record() {
    let mp = get_channels_mp(sample());
    let dir = ChannelDirectory::build(&mp, lines(&["id-A"]));
    assert_eq!(dir.len(), 5);
    let top = dir.root();
    assert_eq!(top.id, "");
    assert_eq!(top.name, "dummy");
    assert!(top.archived);
    assert!(top.active);
    assert!(top.is_root());
    assert_eq!(top.children, vec![1]);
    let a = dir.node(1);
    assert_eq!(a.name, "A");
    assert_eq!(a.parent, Some(0));
    assert_eq!(a.children.len(), 2);
    let b = dir.node(a.children[0]);
    let c = dir.node(a.children[1]);
    assert_eq!(b.name, "B");
    assert_eq!(c.name, "C");
    assert_eq!(c.children.len(), 1);
    assert_eq!(dir.node(c.children[0]).id, "id-D");
    assert_eq!(dir.node(c.children[0]).parent, Some(a.children[1]));
}

#[test]
fn build_passes_over_ids_without_a_record() {
    let mp = get_channels_mp(vec![
        record("a", "A", None, &["ghost", "b"]),
        record("b", "B", Some("a"), &[]),
        record("lost", "L", Some("nowhere"), &[]),
    ]);
    let dir = ChannelDirectory::build(&mp, lines(&["a", "absent"]));
    assert_eq!(dir.len(), 3);
    assert_eq!(dir.list_r(0, false), lines(&["/A", "/A/B"]));
}

#[test]
fn build_makes_no_node_twice() {
    let mp = get_channels_mp(vec![
        record("a", "A", None, &["b", "b", "c"]),
        record("b", "B", Some("a"), &["c", "a"]),
        record("c", "C", Some("a"), &[]),
    ]);
    let dir = ChannelDirectory::build(&mp, lines(&["a", "a"]));
    assert_eq!(dir.len(), 4);
    assert_eq!(dir.list_r(0, false), lines(&["/A", "/A/B", "/A/B/C"]));
}

#[test]
fn build_of_nothing_is_the_top_alone() {
    let dir = ChannelDirectory::build(&ChannelMap::new(), Vec::new());
    assert_eq!(dir.len(), 1);
    assert!(dir.list(0, true).is_empty());
    assert!(dir.list_r(0, true).is_empty());
    assert_eq!(dir.get_parent_full_path(0), "");
}

#[test]
fn tree_has_the_parentless_channels_below_its_top() {
    let tree = get_channel_tree(vec![
        record("1", "one", None, &["3"]),
        record("2", "two", None, &[]),
        record("3", "three", Some("1"), &[]),
    ]);
    assert_eq!(tree.current(), 0);
    assert_eq!(tree.directory().list(0, false), lines(&["/one", "/two"]));
    assert_eq!(tree.directory().list_r(0, true), lines(&["/one", "/one/three", "/two"]));
}

#[test]
fn go_path_then_lookup_and_listing() {
    let mut tree = get_channel_tree(sample());
    assert_eq!(tree.go_path("A/C"), Ok(()));
    assert_eq!(tree.cur().id, "id-C");
    assert_eq!(tree.name_to_id(""), Ok("id-C".to_owned()));
    let c = tree.current();
    assert_eq!(tree.directory().list(c, true), lines(&["/A/C/D"]));
    assert_eq!(tree.directory().list(c, false), lines(&["/D"]));
    assert_eq!(tree.directory().get_parent_full_path(c), "/A/C");
}

#[test]
fn go_path_is_all_or_nothing() {
    let mut tree = get_channel_tree(sample());
    tree.go_path("A").unwrap();
    let before = tree.current();
    assert_eq!(
        tree.go_path("C/D/nope"),
        Err(MyError::ChannelNotFound("nope".to_owned()))
    );
    assert_eq!(tree.current(), before);
    assert_eq!(tree.go_path("../.."), Err(MyError::NoParent));
    assert_eq!(tree.current(), before);
    assert_eq!(tree.go_path("/A/b"), Err(MyError::ChannelNotFound("b".to_owned())));
    assert_eq!(tree.current(), before);
}

#[test]
fn root_relative_paths_do_not_depend_on_the_start() {
    let mut one = get_channel_tree(sample());
    let mut two = get_channel_tree(sample());
    one.go_path("A/C/D").unwrap();
    two.go_path("A/B").unwrap();
    one.go_path("/").unwrap();
    two.go_path("/").unwrap();
    assert_eq!(one.current(), 0);
    assert_eq!(two.current(), 0);
    assert_eq!(one.go_path("A/C"), two.go_path("A/C"));
    assert_eq!(one.current(), two.current());
    assert_eq!(one.go_path("/A/zzz"), two.go_path("/A/zzz"));
    assert_eq!(one.current(), two.current());
}

#[test]
fn as_many_ups_as_names_lead_back_to_the_top() {
    let mut tree = get_channel_tree(sample());
    tree.go_path("A/C/D").unwrap();
    assert_ne!(tree.current(), 0);
    tree.go_path("../../..").unwrap();
    assert_eq!(tree.current(), 0);
    assert!(tree.cur().is_root());
    assert_eq!(tree.go_up(), Err(MyError::NoParent));
}

#[test]
fn single_steps() {
    let mut tree = get_channel_tree(sample());
    assert_eq!(tree.go_down("A"), Ok(()));
    assert_eq!(tree.cur().name, "A");
    assert_eq!(tree.go_down("a"), Err(MyError::ChannelNotFound("a".to_owned())));
    assert_eq!(tree.cur().name, "A");
    assert_eq!(tree.go_down("B"), Ok(()));
    assert_eq!(tree.go_up(), Ok(()));
    assert_eq!(tree.cur().name, "A");
    tree.go_root();
    assert_eq!(tree.cur().name, "dummy");
    assert_eq!(tree.root().name, "dummy");
    assert_eq!(tree.go_step(&"A".to_owned()), Ok(()));
    assert_eq!(tree.go_step(&"..".to_owned()), Ok(()));
    assert_eq!(tree.go_step(&"/".to_owned()), Ok(()));
    assert_eq!(tree.current(), 0);
}

#[test]
fn go_down_takes_the_first_of_two_with_one_name() {
    let mut tree = get_channel_tree(vec![
        record("1", "same", None, &[]),
        record("2", "same", None, &[]),
    ]);
    assert_eq!(tree.name_to_id("same"), Ok("1".to_owned()));
}

#[test]
fn name_to_id_leaves_the_cursor() {
    let mut tree = get_channel_tree(sample());
    tree.go_path("A").unwrap();
    let before = tree.current();
    assert_eq!(tree.name_to_id("C/D"), Ok("id-D".to_owned()));
    assert_eq!(tree.current(), before);
    assert_eq!(tree.name_to_id("/"), Ok("".to_owned()));
    assert_eq!(tree.name_to_place("/"), Ok(0));
    assert_eq!(tree.current(), before);
    assert_eq!(tree.name_to_id("x"), Err(MyError::ChannelNotFound("x".to_owned())));
    assert_eq!(tree.current(), before);
}

#[test]
fn recursive_listing_is_depth_first_in_stored_order() {
    let tree = get_channel_tree(sample());
    let dir = tree.directory();
    assert_eq!(dir.list_r(0, false), lines(&["/A", "/A/B", "/A/C", "/A/C/D"]));
    assert_eq!(dir.list_r(0, true), lines(&["/A", "/A/B", "/A/C", "/A/C/D"]));
    assert_eq!(dir.list_r(1, false), lines(&["./B", "./C", "./C/D"]));
    assert_eq!(dir.list_r(1, true), lines(&["/A/B", "/A/C", "/A/C/D"]));
}

#[test]
fn full_and_relative_listings_have_the_same_lines_but_for_the_prefix() {
    let tree = get_channel_tree(sample());
    let dir = tree.directory();
    for node in 0..dir.len() {
        let full = dir.list_r(node, true);
        let relative = dir.list_r(node, false);
        assert_eq!(full.len(), relative.len());
        let path = dir.get_parent_full_path(node);
        let dot = if dir.is_root(node) { "" } else { "." };
        for (f, r) in full.iter().zip(relative.iter()) {
            assert_eq!(f.strip_prefix(path.as_str()), r.strip_prefix(dot));
        }
    }
}

#[test]
fn channel_list_prints_and_stays() {
    let mut tree = get_channel_tree(sample());
    tree.go_path("A").unwrap();
    let before = tree.current();
    assert_eq!(channel(&mut tree, "list", None, false, false), Ok(lines(&["/B", "/C"])));
    assert_eq!(channel(&mut tree, "list", Some("C"), true, false), Ok(lines(&["/A/C/D"])));
    assert_eq!(channel(&mut tree, "list", Some("/"), false, true), Ok(lines(&["/A", "/A/B", "/A/C", "/A/C/D"])));
    assert_eq!(channel(&mut tree, "list", None, false, true), Ok(lines(&["./B", "./C", "./C/D"])));
    assert_eq!(
        channel(&mut tree, "list", Some("nope"), false, false),
        Err(MyError::ChannelNotFound("nope".to_owned()))
    );
    assert_eq!(tree.current(), before);
}

#[test]
fn channel_cd_moves_and_other_commands_do_nothing() {
    let mut tree = get_channel_tree(sample());
    assert_eq!(channel(&mut tree, "cd", Some("A/C"), false, false), Ok(Vec::new()));
    assert_eq!(tree.cur().id, "id-C");
    let at = tree.current();
    assert_eq!(channel(&mut tree, "cd", Some(".."), false, false), Ok(Vec::new()));
    assert_eq!(tree.cur().id, "id-A");
    assert_eq!(
        channel(&mut tree, "cd", Some("../.."), false, false),
        Err(MyError::NoParent)
    );
    assert_eq!(tree.cur().id, "id-A");
    assert_eq!(channel(&mut tree, "rm", Some("C"), true, true), Ok(Vec::new()));
    assert_eq!(tree.cur().id, "id-A");
    assert_ne!(tree.current(), at);
}

#[test]
fn tree_new_starts_at_the_top() {
    let mp = get_channels_mp(sample());
    let tree = ChannelTree::new(ChannelDirectory::build(&mp, lines(&["id-A"])));
    assert_eq!(tree.current(), 0);
    assert_eq!(tree.cur().name, "dummy");
}

#[test]
fn dummy_node_and_new_node() {
    let d = ChannelTreeNode::dummy();
    assert_eq!(d.id, "");
    assert_eq!(d.name, "dummy");
    assert!(d.children.is_empty());
    assert!(!d.active);
    assert!(d.archived);
    assert!(d.is_root());
    let n = ChannelTreeNode::new("i".to_owned(), "n".to_owned(), vec![4, 5], true, false, Some(2));
    assert_eq!(n.id, "i");
    assert_eq!(n.name, "n");
    assert_eq!(n.children, vec![4, 5]);
    assert!(n.active);
    assert!(!n.archived);
    assert_eq!(n.parent, Some(2));
    assert!(!n.is_root());
}

#[test]
fn record_clone_keeps_every_field() {
    let r = ChannelLike::new("i".to_owned(), "n".to_owned(), Some("p".to_owned()), lines(&["a", "b"]), true);
    let c = r.clone();
    assert_eq!(c.id, "i");
    assert_eq!(c.name, "n");
    assert_eq!(c.parent_id, Some("p".to_owned()));
    assert_eq!(c.children, lines(&["a", "b"]));
    assert!(c.archived);
}

#[test]
fn error_messages() {
    assert_eq!(MyError::ChannelNotFound("x".to_owned()).message(), "x is not found");
    assert_eq!(MyError::NoParent.message(), "parent is not exists");
    assert_eq!(MyError::InvalidLevel.message(), "subscribe level must be 0, 1 or 2");
    assert_eq!(MyError::BatchPartialFailure(vec!["a".to_owned()]).message(), "some error occurred");
    assert_eq!(MyError::ApiError("boom".to_owned()).message(), "boom");
}

#[test]
fn every_listed_channel_with_a_record_is_a_child_when_nothing_is_listed_twice() {
    let records = vec![
        record("a", "A", None, &["b", "gone", "c"]),
        record("b", "B", Some("a"), &["d"]),
        record("c", "C", Some("a"), &[]),
        record("d", "D", Some("b"), &[]),
        record("e", "E", None, &[]),
    ];
    let tree = get_channel_tree(records.clone());
    let dir = tree.directory();
    assert_eq!(dir.len(), 6);
    for place in 1..dir.len() {
        let node = dir.node(place);
        let source = records.iter().find(|r| r.id == node.id).unwrap();
        let present: Vec<String> = source
            .children
            .iter()
            .filter(|c| records.iter().any(|r| &r.id == *c))
            .cloned()
            .collect();
        let below: Vec<String> = node.children.iter().map(|c| dir.node(*c).id.clone()).collect();
        assert_eq!(below, present);
        assert_eq!(node.name, source.name);
        assert_eq!(node.archived, source.archived);
        assert!(node.active);
    }
    let top: Vec<String> = dir.root().children.iter().map(|c| dir.node(*c).id.clone()).collect();
    assert_eq!(top, lines(&["a", "e"]));
}
