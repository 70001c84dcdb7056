use qui::cli::channel::get_channel_tree;
use qui::cli::channel::ChannelLike;
use qui::cli::channel::ChannelTree;
use qui::cli::notify::batch_result;
use qui::cli::notify::dispatch_schedule;
use qui::cli::notify::level_number;
use qui::cli::notify::notify;
use qui::cli::notify::parse_level;
use qui::cli::notify::parse_u8;
use qui::cli::notify::resolve_names;
use qui::cli::notify::set_subscriptions;
use qui::cli::notify::subscribe_level;
use qui::cli::notify::BatchAction;
use qui::cli::notify::SubscribeLevel;
use qui::cli::notify::SubscriptionRequest;
use qui::cli::notify::PACE;
use qui::cli::notify::PACE_DELAY_MILLIS;
use qui::error::MyError;
use qui::text::is_whitespace;
use qui::text::split_whitespace;

fn record(id: &str, name: &str, parent: Option<&str>, children: &[&str]) -> ChannelLike {
    ChannelLike::new(
        id.to_owned(),
        name.to_owned(),
        parent.map(|p| p.to_owned()),
        children.iter().map(|c| c.to_string()).collect(),
        false,
    )
}

fn tree() -> ChannelTree {
    get_channel_tree(vec![
        record("id-A", "A", None, &["id-B", "id-C"]),
        record("id-B", "B", Some("id-A"), &[]),
        record("id-C", "C", Some("id-A"), &["id-D"]),
        record("id-D", "D", Some("id-C"), &[]),
    ])
}

fn strings(v: &[&str]) -> Vec<String> {
    v.iter().map(|s| s.to_string()).collect()
}

fn request(id: &str, level: SubscribeLevel) -> SubscriptionRequest {
    SubscriptionRequest { channel_id: id.to_owned(), level }
}

#[test]
fn levels_are_zero_one_and_two() {
    assert_eq!(subscribe_level(0), Ok(SubscribeLevel::Unsubscribed));
    assert_eq!(subscribe_level(1), Ok(SubscribeLevel::Subscribed));
    assert_eq!(subscribe_level(2), Ok(SubscribeLevel::Notified));
    assert_eq!(subscribe_level(3), Err(MyError::InvalidLevel));
    assert_eq!(subscribe_level(255), Err(MyError::InvalidLevel));
    assert_eq!(level_number(SubscribeLevel::Unsubscribed), 0);
    assert_eq!(level_number(SubscribeLevel::Subscribed), 1);
    assert_eq!(level_number(SubscribeLevel::Notified), 2);
}

#[test]
fn parse_u8_reads_what_std_reads() {
    for token in [
        "0", "1", "2", "7", "+2", "002", "255", "256", "0255", "1000", "", "+", "-1", "1 ", " 1", "a",
        "1a", "++1", "2+", "٣", "99999999999999999999",
    ] {
        assert_eq!(parse_u8(token), token.parse::<u8>().ok(), "token {:?}", token);
    }
}

#[test]
fn parse_level_takes_the_three_levels() {
    assert_eq!(parse_level("0"), Ok(SubscribeLevel::Unsubscribed));
    assert_eq!(parse_level("1"), Ok(SubscribeLevel::Subscribed));
    assert_eq!(parse_level("+2"), Ok(SubscribeLevel::Notified));
    assert_eq!(parse_level("3"), Err(MyError::InvalidLevel));
    assert_eq!(parse_level("two"), Err(MyError::InvalidLevel));
    assert_eq!(parse_level(""), Err(MyError::InvalidLevel));
}

#[test]
fn resolve_names_gives_ids_in_order() {
    let mut t = tree();
    assert_eq!(
        resolve_names(&mut t, &strings(&["A/B", "/A/C/D", "A"])),
        Ok(strings(&["id-B", "id-D", "id-A"]))
    );
    assert_eq!(resolve_names(&mut t, &Vec::new()), Ok(Vec::new()));
    assert_eq!(t.current(), 0);
}

#[test]
fn unresolved_name_fails_the_whole_batch() {
    let mut t = tree();
    let result = notify(&mut t, "1", &strings(&["A/B", "nope"]));
    assert_eq!(result, Err(MyError::ChannelNotFound("nope".to_owned())));
    assert_eq!(t.current(), 0);
}

#[test]
fn first_unresolved_name_is_reported() {
    let mut t = tree();
    let result = notify(&mut t, "1", &strings(&["A", "x/y", "A/B", "z"]));
    assert_eq!(result, Err(MyError::ChannelNotFound("x".to_owned())));
}

#[test]
fn level_is_checked_before_names() {
    let mut t = tree();
    assert_eq!(notify(&mut t, "3", &strings(&["nope"])), Err(MyError::InvalidLevel));
    assert_eq!(notify(&mut t, "x", &strings(&["A"])), Err(MyError::InvalidLevel));
}

#[test]
fn notify_makes_one_request_for_each_path() {
    let mut t = tree();
    t.go_path("A").unwrap();
    let at = t.current();
    assert_eq!(
        notify(&mut t, "2", &strings(&["B", "C/D", ".."])),
        Ok(vec![
            request("id-B", SubscribeLevel::Notified),
            request("id-D", SubscribeLevel::Notified),
            request("", SubscribeLevel::Notified),
        ])
    );
    assert_eq!(t.current(), at);
    assert_eq!(notify(&mut t, "0", &Vec::new()), Ok(Vec::new()));
}

#[test]
fn set_subscriptions_makes_requests_or_refuses_a_level() {
    assert_eq!(
        set_subscriptions(vec![("a".to_owned(), 0), ("b".to_owned(), 1), ("c".to_owned(), 2)]),
        Ok(vec![
            request("a", SubscribeLevel::Unsubscribed),
            request("b", SubscribeLevel::Subscribed),
            request("c", SubscribeLevel::Notified),
        ])
    );
    assert_eq!(
        set_subscriptions(vec![("a".to_owned(), 0), ("b".to_owned(), 3)]),
        Err(MyError::InvalidLevel)
    );
    assert_eq!(set_subscriptions(Vec::new()), Ok(Vec::new()));
}

#[test]
fn pace_constants() {
    assert_eq!(PACE, 5);
    assert_eq!(PACE_DELAY_MILLIS, 100);
}

#[test]
fn schedule_waits_after_the_first_of_every_five() {
    let wait = BatchAction::Delay;
    let send = |i: usize| BatchAction::Submit(i);
    assert_eq!(dispatch_schedule(0), Vec::new());
    assert_eq!(dispatch_schedule(1), vec![send(0), wait]);
    assert_eq!(
        dispatch_schedule(7),
        vec![send(0), wait, send(1), send(2), send(3), send(4), send(5), wait, send(6)]
    );
}

#[test]
fn batch_of_twelve() {
    let ids: Vec<String> = (1..=12).map(|i| format!("channel-{}", i)).collect();
    let pairs: Vec<(String, u8)> = ids.iter().map(|id| (id.clone(), 2)).collect();
    let requests = set_subscriptions(pairs).unwrap();
    assert_eq!(requests.len(), 12);
    assert!(requests.iter().all(|r| r.level == SubscribeLevel::Notified));

    let actions = dispatch_schedule(requests.len());
    let sent: Vec<usize> = actions
        .iter()
        .filter_map(|a| match a {
            BatchAction::Submit(i) => Some(*i),
            BatchAction::Delay => None,
        })
        .collect();
    assert_eq!(sent, (0..12).collect::<Vec<usize>>());
    let waits: Vec<usize> = actions
        .iter()
        .enumerate()
        .filter(|(_, a)| **a == BatchAction::Delay)
        .map(|(at, _)| at)
        .collect();
    assert_eq!(waits.len(), 3);
    for at in waits {
        match actions[at - 1] {
            BatchAction::Submit(i) => assert_eq!(i % 5, 0),
            BatchAction::Delay => panic!("two waits in a row"),
        }
    }

    let mut succeeded = vec![true; 12];
    assert_eq!(batch_result(&requests, &succeeded), Ok(()));
    succeeded[6] = false;
    assert_eq!(
        batch_result(&requests, &succeeded),
        Err(MyError::BatchPartialFailure(vec!["channel-7".to_owned()]))
    );
}

#[test]
fn batch_result_names_every_failure_in_order() {
    let requests = vec![
        request("a", SubscribeLevel::Subscribed),
        request("b", SubscribeLevel::Subscribed),
        request("c", SubscribeLevel::Subscribed),
    ];
    assert_eq!(
        batch_result(&requests, &vec![false, true, false]),
        Err(MyError::BatchPartialFailure(strings(&["a", "c"])))
    );
    assert_eq!(
        batch_result(&requests, &vec![true]),
        Err(MyError::BatchPartialFailure(strings(&["b", "c"])))
    );
    assert_eq!(batch_result(&Vec::new(), &Vec::new()), Ok(()));
}

#[test]
fn split_whitespace_agrees_with_std() {
    for text in [
        "",
        " ",
        "a",
        "  a  b\tc\n",
        "A/B nope",
        "one\u{3000}two\u{a0}three\u{85}four",
        "\u{2003}x\u{2028}y\u{200b}z",
        "tab\u{b}feed\u{c}cr\r\nend",
        "\u{1680}\u{202f}\u{205f}q",
    ] {
        let expected: Vec<String> = text.split_whitespace().map(|s| s.to_owned()).collect();
        assert_eq!(split_whitespace(text), expected, "text {:?}", text);
    }
}

#[test]
fn is_whitespace_agrees_with_std() {
    for u in 0..0x3100u32 {
        if let Some(c) = char::from_u32(u) {
            assert_eq!(is_whitespace(c), c.is_whitespace(), "char {:x}", u);
        }
    }
}
