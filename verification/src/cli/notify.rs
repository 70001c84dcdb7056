//! The batched change of subscription levels: the level is checked, the
//! paths are resolved to channel ids, one request is made for each, the
//! requests are sent off at a set pace, and their outcomes are gathered.

use super::channel::cursor::resolve;
use super::channel::cursor::ChannelTree;
use super::channel::path::path_segments;
use crate::text::texts;
use super::channel::NodeView;
use crate::error::ErrorView;
use crate::error::MyError;
use vstd::prelude::*;
use vstd::string::StrSliceExecFns;

verus! {

/// After the first request and after every `PACE`-th one from there on the
/// sender waits before it sends the next.
pub const PACE: usize = 5;

/// How many milliseconds the sender waits.
pub const PACE_DELAY_MILLIS: u64 = 100;

/// How much of a channel the user is told about.
#[derive(Debug, Clone, Copy, PartialEq, Eq)]
pub enum SubscribeLevel {
    /// Level 0: nothing.
    Unsubscribed,
    /// Level 1: unread messages are marked.
    Subscribed,
    /// Level 2: every message is announced.
    Notified,
}

/// The request to set the level of one channel.
#[derive(Debug, PartialEq, Eq)]
pub struct SubscriptionRequest {
    pub channel_id: String,
    pub level: SubscribeLevel,
}

/// A `SubscriptionRequest` with its id as a sequence of characters.
pub struct RequestView {
    pub channel_id: Seq<char>,
    pub level: SubscribeLevel,
}

impl View for SubscriptionRequest {
    type V = RequestView;

    open spec fn view(&self) -> RequestView {
        RequestView { channel_id: self.channel_id@, level: self.level }
    }
}

/// The views of `requests`, in the same order.
pub open spec fn request_views(requests: Seq<SubscriptionRequest>) -> Seq<RequestView> {
    Seq::new(requests.len(), |i: int| requests[i]@)
}

/// The level with the given number, if it is 0, 1 or 2.
pub open spec fn level_of(level: u8) -> Option<SubscribeLevel> {
    if level == 0 {
        Some(SubscribeLevel::Unsubscribed)
    } else if level == 1 {
        Some(SubscribeLevel::Subscribed)
    } else if level == 2 {
        Some(SubscribeLevel::Notified)
    } else {
        None
    }
}

/// The level with the given number; any number but 0, 1 and 2 is refused.
pub fn subscribe_level(level: u8) -> (result: Result<SubscribeLevel, MyError>)
    ensures
        match level_of(level) {
            Some(l) => result == Ok::<SubscribeLevel, MyError>(l),
            None => result == Err::<SubscribeLevel, MyError>(MyError::InvalidLevel),
        },
{
    match level {
        0 => Ok(SubscribeLevel::Unsubscribed),
        1 => Ok(SubscribeLevel::Subscribed),
        2 => Ok(SubscribeLevel::Notified),
        _ => Err(MyError::InvalidLevel),
    }
}

/// Whether `c` is one of the digits `0` to `9`.
pub open spec fn is_digit(c: char) -> bool {
    0x30 <= c as u32 <= 0x39
}

/// Whether `s` holds digits only.
pub open spec fn all_digits(s: Seq<char>) -> bool {
    forall|i: int| 0 <= i < s.len() ==> is_digit(#[trigger] s[i])
}

/// The number that the digits of `s` write in base ten.
pub open spec fn digits_value(s: Seq<char>) -> int
    decreases s.len(),
{
    if s.len() == 0 {
        0
    } else {
        digits_value(s.drop_last()) * 10 + (s.last() as u32 - 0x30)
    }
}

/// `s` without the `+` that it may begin with.
pub open spec fn unsigned_part(s: Seq<char>) -> Seq<char> {
    if s.len() > 0 && s[0] == '+' {
        s.skip(1)
    } else {
        s
    }
}

/// The number that `s` writes, if it can be held in a `u8`: `s` is one or
/// more digits, after a `+` or after nothing, and writes no more than 255.
pub open spec fn parsed_u8(s: Seq<char>) -> Option<u8> {
    let body = unsigned_part(s);
    if body.len() > 0 && all_digits(body) && digits_value(body) <= 255 {
        Some(digits_value(body) as u8)
    } else {
        None
    }
}

/// Digits that follow can only make a number larger.
pub proof fn lemma_digits_grow(s: Seq<char>, k: int)
    requires
        all_digits(s),
        0 <= k <= s.len(),
    ensures
        0 <= digits_value(s.take(k)) <= digits_value(s),
    decreases s.len() - k,
{
    if k == s.len() {
        assert(s.take(k) =~= s);
        lemma_digits_nonnegative(s);
    } else {
        lemma_digits_grow(s, k + 1);
        let longer = s.take(k + 1);
        assert(longer.drop_last() =~= s.take(k));
        assert(longer.last() == s[k]);
        assert(is_digit(s[k]));
        lemma_digits_nonnegative(s.take(k));
    }
}

/// Digits write a number that is not negative.
pub proof fn lemma_digits_nonnegative(s: Seq<char>)
    requires
        all_digits(s),
    ensures
        0 <= digits_value(s),
    decreases s.len(),
{
    if s.len() > 0 {
        assert(is_digit(s.last()));
        assert forall|i: int| 0 <= i < s.drop_last().len() implies is_digit(
            #[trigger] s.drop_last()[i],
        ) by {
            assert(s.drop_last()[i] == s[i]);
        }
        lemma_digits_nonnegative(s.drop_last());
    }
}

/// The number that `token` writes, if it can be held in a `u8`.
pub fn parse_u8(token: &str) -> (value: Option<u8>)
    ensures
        value == parsed_u8(token@),
{
    let n = token.unicode_len();
    let start: usize = if n > 0 && token.get_char(0) == '+' {
        1
    } else {
        0
    };
    let ghost body = token@.skip(start as int);
    assert(body =~= unsigned_part(token@));
    if start >= n {
        return None;
    }
    let mut value: u32 = 0;
    let mut i: usize = start;
    assert(body.take(0) =~= Seq::<char>::empty());
    while i < n
        invariant
            n == token@.len(),
            start <= i <= n,
            body == token@.skip(start as int),
            body == unsigned_part(token@),
            all_digits(body.take(i - start)),
            value == digits_value(body.take(i - start)),
            value <= 255,
        decreases n - i,
    {
        let c = token.get_char(i);
        let u = c as u32;
        assert(body[i - start] == c);
        if u < 0x30 || u > 0x39 {
            assert(!is_digit(body[i - start]));
            return None;
        }
        proof {
            let longer = body.take(i - start + 1);
            assert(longer.drop_last() =~= body.take(i - start));
            assert(longer.last() == c);
            assert forall|j: int| 0 <= j < longer.len() implies is_digit(#[trigger] longer[j]) by {
                if j < i - start {
                    assert(longer[j] == body.take(i - start)[j]);
                }
            }
        }
        let next = value * 10 + (u - 0x30);
        if next > 255 {
            proof {
                if all_digits(body) {
                    lemma_digits_grow(body, i - start + 1);
                }
            }
            return None;
        }
        value = next;
        i += 1;
    }
    assert(body.take(n - start) =~= body);
    Some(value as u8)
}

/// The level that the token names: the level of the number it writes.
pub open spec fn token_level(token: Seq<char>) -> Option<SubscribeLevel> {
    match parsed_u8(token) {
        Some(v) => level_of(v),
        None => None,
    }
}

/// The level that `token` names; a token that writes none of 0, 1 and 2 is
/// refused.
pub fn parse_level(token: &str) -> (result: Result<SubscribeLevel, MyError>)
    ensures
        match token_level(token@) {
            Some(l) => result == Ok::<SubscribeLevel, MyError>(l),
            None => result == Err::<SubscribeLevel, MyError>(MyError::InvalidLevel),
        },
{
    match parse_u8(token) {
        Some(v) => subscribe_level(v),
        None => Err(MyError::InvalidLevel),
    }
}

/// The number of a level.
pub fn level_number(level: SubscribeLevel) -> (n: u8)
    ensures
        level_of(n) == Some(level),
{
    match level {
        SubscribeLevel::Unsubscribed => 0,
        SubscribeLevel::Subscribed => 1,
        SubscribeLevel::Notified => 2,
    }
}

/// The ids of the channels that the paths lead to from the node at place
/// `cur`, in the order of the paths, or the error of the first path that
/// leads nowhere.
pub open spec fn resolved_ids(t: Seq<NodeView>, cur: usize, names: Seq<Seq<char>>) -> Result<
    Seq<Seq<char>>,
    ErrorView,
>
    decreases names.len(),
{
    if names.len() == 0 {
        Ok(Seq::empty())
    } else {
        match resolved_ids(t, cur, names.drop_last()) {
            Err(e) => Err(e),
            Ok(ids) => match resolve(t, cur, path_segments(names.last())) {
                Ok(end) => Ok(ids.push(t[end as int].id)),
                Err(e) => Err(e),
            },
        }
    }
}

/// The ids of the channels that the paths lead to from the current node.
/// The cursor stays where it is. If a path leads nowhere, its error is
/// returned and no id.
pub fn resolve_names(tree: &mut ChannelTree, channel_names: &Vec<String>) -> (result: Result<
    Vec<String>,
    MyError,
>)
    ensures
        final(tree)@ == old(tree)@,
        match resolved_ids(old(tree)@.tree, old(tree)@.current, texts(channel_names@)) {
            Ok(ids) => result matches Ok(found) && texts(found@) == ids,
            Err(e) => result matches Err(err) && err@ == e,
        },
{
    let mut ids: Vec<String> = Vec::new();
    let ghost names = texts(channel_names@);
    let mut i: usize = 0;
    assert(names.take(0) =~= Seq::<Seq<char>>::empty());
    assert(texts(ids@) =~= Seq::<Seq<char>>::empty());
    while i < channel_names.len()
        invariant
            0 <= i <= channel_names.len(),
            names == texts(channel_names@),
            tree@ == old(tree)@,
            resolved_ids(tree@.tree, tree@.current, names.take(i as int)) == Ok::<
                Seq<Seq<char>>,
                ErrorView,
            >(texts(ids@)),
        decreases channel_names.len() - i,
    {
        let ghost before = texts(ids@);
        proof {
            assert(names.take(i + 1).drop_last() =~= names.take(i as int));
            assert(names.take(i + 1).last() == channel_names[i as int]@);
        }
        match tree.name_to_id(channel_names[i].as_str()) {
            Ok(id) => {
                ids.push(id);
                assert(texts(ids@) =~= before.push(id@));
            },
            Err(e) => {
                proof {
                    lemma_first_failure(tree@.tree, tree@.current, names, i as int);
                }
                return Err(e);
            },
        }
        i += 1;
    }
    assert(names.take(channel_names.len() as int) =~= names);
    Ok(ids)
}

/// If the paths before the `i`-th all lead somewhere and the `i`-th leads
/// nowhere, its error is the error of them all.
pub proof fn lemma_first_failure(t: Seq<NodeView>, cur: usize, names: Seq<Seq<char>>, i: int)
    requires
        0 <= i < names.len(),
        resolved_ids(t, cur, names.take(i)) is Ok,
        resolve(t, cur, path_segments(names[i])) is Err,
    ensures
        resolved_ids(t, cur, names) == Err::<Seq<Seq<char>>, ErrorView>(
            resolve(t, cur, path_segments(names[i]))->Err_0,
        ),
    decreases names.len() - i,
{
    let upto = names.take(i + 1);
    assert(upto.drop_last() =~= names.take(i));
    assert(upto.last() == names[i]);
    lemma_failure_stays(t, cur, names, i + 1);
}

/// Once the first `k` paths fail, all of them fail with the same error.
pub proof fn lemma_failure_stays(t: Seq<NodeView>, cur: usize, names: Seq<Seq<char>>, k: int)
    requires
        0 <= k <= names.len(),
        resolved_ids(t, cur, names.take(k)) is Err,
    ensures
        resolved_ids(t, cur, names) == resolved_ids(t, cur, names.take(k)),
    decreases names.len() - k,
{
    if k == names.len() {
        assert(names.take(k) =~= names);
    } else {
        let upto = names.take(k + 1);
        assert(upto.drop_last() =~= names.take(k));
        lemma_failure_stays(t, cur, names, k + 1);
    }
}

/// Whether every pair holds one of the levels 0, 1 and 2.
pub open spec fn levels_valid(pairs: Seq<(String, u8)>) -> bool {
    forall|i: int| 0 <= i < pairs.len() ==> level_of((#[trigger] pairs[i]).1) is Some
}

/// The request for a pair of a channel id and the number of a level.
pub open spec fn request_of(pair: (String, u8)) -> RequestView {
    RequestView { channel_id: pair.0@, level: level_of(pair.1)->0 }
}

/// The requests for the pairs, in the same order.
pub open spec fn requests_of(pairs: Seq<(String, u8)>) -> Seq<RequestView> {
    Seq::new(pairs.len(), |i: int| request_of(pairs[i]))
}

/// One request for each pair of a channel id and the number of a level, in
/// the same order. If a pair holds a number other than 0, 1 and 2, no
/// request is made and the level is refused.
pub fn set_subscriptions(channel_ids_and_subscribe_level: Vec<(String, u8)>) -> (result: Result<
    Vec<SubscriptionRequest>,
    MyError,
>)
    ensures
        levels_valid(channel_ids_and_subscribe_level@) ==> (result matches Ok(requests)
            && request_views(requests@) == requests_of(channel_ids_and_subscribe_level@)),
        !levels_valid(channel_ids_and_subscribe_level@) ==> result == Err::<
            Vec<SubscriptionRequest>,
            MyError,
        >(MyError::InvalidLevel),
{
    let ghost pairs = channel_ids_and_subscribe_level@;
    let mut requests: Vec<SubscriptionRequest> = Vec::new();
    for pair in it: channel_ids_and_subscribe_level
        invariant
            it.seq() == pairs,
            requests.len() == it.index(),
            forall|k: int| 0 <= k < it.index() ==> level_of((#[trigger] pairs[k]).1) is Some,
            forall|k: int| 0 <= k < it.index() ==> (#[trigger] requests[k])@ == request_of(pairs[k]),
    {
        let (channel_id, number) = pair;
        match subscribe_level(number) {
            Ok(level) => {
                requests.push(SubscriptionRequest { channel_id, level });
            },
            Err(e) => {
                assert(level_of(pairs[it.index() as int].1) is None);
                return Err(e);
            },
        }
    }
    assert(request_views(requests@) =~= requests_of(pairs));
    Ok(requests)
}

/// The requests that give each of the ids the level.
pub open spec fn requests_for(ids: Seq<Seq<char>>, level: SubscribeLevel) -> Seq<RequestView> {
    Seq::new(ids.len(), |i: int| RequestView { channel_id: ids[i], level })
}

/// Prepares the change of the level of the channels that the paths lead to
/// from the current node: one request for each path, in their order, all
/// with the level that the token names.
///
/// The level is checked first: a token that names none of 0, 1 and 2 is
/// refused. Then every path is resolved; if one leads nowhere, its error
/// is returned and no request is made. The cursor stays where it is.
pub fn notify(tree: &mut ChannelTree, level: &str, channel_names: &Vec<String>) -> (result: Result<
    Vec<SubscriptionRequest>,
    MyError,
>)
    ensures
        final(tree)@ == old(tree)@,
        match token_level(level@) {
            None => (result matches Err(err) && err@ == ErrorView::InvalidLevel),
            Some(l) => match resolved_ids(
                old(tree)@.tree,
                old(tree)@.current,
                texts(channel_names@),
            ) {
                Ok(ids) => (result matches Ok(requests) && request_views(requests@)
                    == requests_for(ids, l)),
                Err(e) => (result matches Err(err) && err@ == e),
            },
        },
{
    let number = match parse_u8(level) {
        Some(number) => number,
        None => {
            return Err(MyError::InvalidLevel);
        },
    };
    match subscribe_level(number) {
        Ok(_) => {},
        Err(e) => {
            return Err(e);
        },
    }
    let ids = match resolve_names(tree, channel_names) {
        Ok(ids) => ids,
        Err(e) => {
            return Err(e);
        },
    };
    let ghost found = texts(ids@);
    let ghost all = ids@;
    let mut pairs: Vec<(String, u8)> = Vec::new();
    for id in it: ids
        invariant
            it.seq() == all,
            pairs.len() == it.index(),
            forall|k: int|
                0 <= k < it.index() ==> (#[trigger] pairs[k]).0@ == all[k]@ && pairs[k].1
                    == number,
    {
        pairs.push((id, number));
    }
    assert(levels_valid(pairs@));
    let result = set_subscriptions(pairs);
    proof {
        let l = level_of(number)->0;
        assert(requests_of(pairs@) =~= requests_for(found, l));
    }
    result
}

/// What the sender does next: send the request at a place of the batch, or
/// wait.
#[derive(Debug, Clone, Copy, PartialEq, Eq)]
pub enum BatchAction {
    Submit(usize),
    Delay,
}

/// What the sender does for a batch of `n` requests: it sends them in
/// their order and waits after the first one and after every `PACE`-th one
/// from there on.
pub open spec fn schedule(n: nat) -> Seq<BatchAction>
    decreases n,
{
    if n == 0 {
        Seq::empty()
    } else {
        let i = (n - 1) as nat;
        let sent = schedule(i).push(BatchAction::Submit(i as usize));
        if i % (PACE as nat) == 0 {
            sent.push(BatchAction::Delay)
        } else {
            sent
        }
    }
}

/// What the sender does for a batch of `count` requests.
pub fn dispatch_schedule(count: usize) -> (actions: Vec<BatchAction>)
    ensures
        actions@ == schedule(count as nat),
{
    let mut actions: Vec<BatchAction> = Vec::new();
    let mut i: usize = 0;
    while i < count
        invariant
            0 <= i <= count,
            actions@ == schedule(i as nat),
        decreases count - i,
    {
        actions.push(BatchAction::Submit(i));
        if i % PACE == 0 {
            actions.push(BatchAction::Delay);
        }
        i += 1;
    }
    actions
}

/// The places that the actions send, in their order.
pub open spec fn submitted(actions: Seq<BatchAction>) -> Seq<usize>
    decreases actions.len(),
{
    if actions.len() == 0 {
        Seq::empty()
    } else {
        match actions.last() {
            BatchAction::Submit(i) => submitted(actions.drop_last()).push(i),
            BatchAction::Delay => submitted(actions.drop_last()),
        }
    }
}

/// How often the actions wait.
pub open spec fn delays(actions: Seq<BatchAction>) -> nat
    decreases actions.len(),
{
    if actions.len() == 0 {
        0
    } else {
        match actions.last() {
            BatchAction::Submit(_) => delays(actions.drop_last()),
            BatchAction::Delay => delays(actions.drop_last()) + 1,
        }
    }
}

/// The schedule of a batch sends every request once, in the order of the
/// batch, and waits once for every `PACE` requests or part of that many.
pub proof fn lemma_schedule_counts(n: nat)
    requires
        n <= usize::MAX,
    ensures
        submitted(schedule(n)) == Seq::new(n, |i: int| i as usize),
        delays(schedule(n)) == (n + 4) / 5,
    decreases n,
{
    if n == 0 {
        assert(submitted(schedule(n)) =~= Seq::new(n, |i: int| i as usize));
    } else {
        let i = (n - 1) as nat;
        lemma_schedule_counts(i);
        let sent = schedule(i).push(BatchAction::Submit(i as usize));
        assert(sent.drop_last() =~= schedule(i));
        assert(submitted(sent) == submitted(schedule(i)).push(i as usize));
        assert(delays(sent) == delays(schedule(i)));
        if i % 5 == 0 {
            let all = sent.push(BatchAction::Delay);
            assert(all.drop_last() =~= sent);
            assert(submitted(all) == submitted(sent));
            assert(delays(all) == delays(sent) + 1);
        }
        assert(submitted(schedule(n)) =~= Seq::new(n, |i: int| i as usize));
    }
}

/// The ids of the requests that did not succeed, in the order of the batch.
/// A request without an outcome counts as one that did not.
pub open spec fn failed_ids(requests: Seq<RequestView>, succeeded: Seq<bool>) -> Seq<Seq<char>>
    decreases requests.len(),
{
    if requests.len() == 0 {
        Seq::empty()
    } else {
        let before = failed_ids(requests.drop_last(), succeeded);
        let i = requests.len() - 1;
        if i < succeeded.len() && succeeded[i] {
            before
        } else {
            before.push(requests.last().channel_id)
        }
    }
}

/// The outcome of a batch whose requests have all come back: `succeeded`
/// tells of each request, in the order of the batch, whether it did. The
/// batch succeeds if every request did; else it fails and names the
/// channels of those that did not.
pub fn batch_result(requests: &Vec<SubscriptionRequest>, succeeded: &Vec<bool>) -> (result: Result<
    (),
    MyError,
>)
    ensures
        failed_ids(request_views(requests@), succeeded@).len() == 0 ==> result is Ok,
        failed_ids(request_views(requests@), succeeded@).len() > 0 ==> (result matches Err(err)
            && err@ == ErrorView::BatchPartialFailure(
            failed_ids(request_views(requests@), succeeded@),
        )),
{
    let ghost views = request_views(requests@);
    let mut failed: Vec<String> = Vec::new();
    let mut i: usize = 0;
    assert(views.take(0) =~= Seq::<RequestView>::empty());
    assert(texts(failed@) =~= Seq::<Seq<char>>::empty());
    while i < requests.len()
        invariant
            0 <= i <= requests.len(),
            views == request_views(requests@),
            texts(failed@) == failed_ids(views.take(i as int), succeeded@),
        decreases requests.len() - i,
    {
        let ghost before = texts(failed@);
        proof {
            assert(views.take(i + 1).drop_last() =~= views.take(i as int));
            assert(views.take(i + 1).last() == requests[i as int]@);
        }
        if !(i < succeeded.len() && succeeded[i]) {
            failed.push(requests[i].channel_id.clone());
            assert(texts(failed@) =~= before.push(requests[i as int]@.channel_id));
        }
        i += 1;
    }
    assert(views.take(requests.len() as int) =~= views);
    if failed.len() == 0 {
        Ok(())
    } else {
        Err(MyError::BatchPartialFailure(failed))
    }
}

} // verus!
