//! What holds of subscriptions: how they are counted, what an update leaves them
//! at, and what becomes of one that is given up.
use crate::commands::{
    command_run, follows, scripthash_subscribe_run, scripthash_unsubscribe_run, status_asks,
    status_at, ChangeView, Subscription,
};
use crate::connection::{
    distinct, lemma_status_map_keys, lemma_status_map_value, lemma_subscribe,
    lemma_unsubscribe_forgets, status_map, ConnectionView,
};
use crate::dialogue::{
    batch_course, change_acts, closed, command_parts, event_acts, header_checked, header_note,
    line, message_course, messages_course, notified, opened, reply_json, scan_course, sent,
    status_checked, status_note, update_course, value_course, Act, FaultView,
};
use crate::guarantees::{
    current_status, header_notes, history_of, lemma_update_result, lemma_update_told_once,
    refreshed, status_notes, steady, updated, within_limit,
};
use crate::hash::FullHash;
use crate::history::status_json;
use crate::json::{json_of_text, JsonView};
use crate::messages::Message;
use crate::params::{hash_param_or, param, ErrorView};
use crate::query::{Index, World};
use crate::settings::Settings;
use vstd::prelude::*;

verus! {

/// By how many the scripts that are followed are counted up.
pub open spec fn counted(acts: Seq<Act>) -> int
    decreases acts.len(),
{
    if acts.len() == 0 {
        0
    } else {
        counted(acts.drop_last()) + (match acts.last() {
            Act::Subscribed => 1int,
            Act::Unsubscribed => -1,
            Act::Forgotten(n) => -n,
            _ => 0,
        })
    }
}

/// Two things done after each other count together.
proof fn lemma_counted_concat(a: Seq<Act>, b: Seq<Act>)
    ensures
        counted(a + b) == counted(a) + counted(b),
    decreases b.len(),
{
    if b.len() == 0 {
        assert(a + b =~= a);
    } else {
        assert((a + b).drop_last() =~= a + b.drop_last());
        lemma_counted_concat(a, b.drop_last());
    }
}

/// Nothing in `acts` counts.
spec fn counts_nothing(acts: Seq<Act>) -> bool {
    forall|i: int|
        0 <= i < acts.len() ==> !(#[trigger] acts[i] is Subscribed) && !(acts[i] is Unsubscribed)
            && !(acts[i] is Forgotten)
}

/// Where nothing counts, the count stays.
proof fn lemma_counted_nothing(acts: Seq<Act>)
    requires
        counts_nothing(acts),
    ensures
        counted(acts) == 0,
    decreases acts.len(),
{
    if acts.len() > 0 {
        let front = acts.drop_last();
        assert forall|i: int| 0 <= i < front.len() implies !(#[trigger] front[i] is Subscribed)
            && !(front[i] is Unsubscribed) && !(front[i] is Forgotten) by {
            assert(front[i] == acts[i]);
        }
        assert(acts[acts.len() - 1] == acts.last());
        lemma_counted_nothing(front);
    }
}

/// By how many the connected clients are counted up.
pub open spec fn clients(acts: Seq<Act>) -> int
    decreases acts.len(),
{
    if acts.len() == 0 {
        0
    } else {
        clients(acts.drop_last()) + (match acts.last() {
            Act::Connected => 1int,
            Act::Disconnected => -1,
            _ => 0,
        })
    }
}

/// Two things done after each other count together.
proof fn lemma_clients_concat(a: Seq<Act>, b: Seq<Act>)
    ensures
        clients(a + b) == clients(a) + clients(b),
    decreases b.len(),
{
    if b.len() == 0 {
        assert(a + b =~= a);
    } else {
        assert((a + b).drop_last() =~= a + b.drop_last());
        lemma_clients_concat(a, b.drop_last());
    }
}

/// What belongs to the beginning or the end of a connection.
spec fn at_ends(act: Act) -> bool {
    act is Connected || act is Disconnected || act is Forgotten
}

/// Nothing in `acts` belongs to the beginning or the end of a connection.
spec fn in_between(acts: Seq<Act>) -> bool {
    forall|i: int| 0 <= i < acts.len() ==> !at_ends(#[trigger] acts[i])
}

/// What is done in between counts no client.
proof fn lemma_in_between(acts: Seq<Act>)
    requires
        in_between(acts),
    ensures
        clients(acts) == 0,
    decreases acts.len(),
{
    if acts.len() > 0 {
        let front = acts.drop_last();
        assert forall|i: int| 0 <= i < front.len() implies !at_ends(#[trigger] front[i]) by {
            assert(front[i] == acts[i]);
        }
        assert(acts[acts.len() - 1] == acts.last());
        lemma_in_between(front);
    }
}

/// Texts are sent last: once something is sent, nothing else is done.
pub open spec fn sends_last(acts: Seq<Act>) -> bool {
    forall|k: int, l: int|
        0 <= k <= l < acts.len() && #[trigger] acts[k] is Send ==> #[trigger] acts[l] is Send
}

/// A change counts what it adds to, or takes from, what the client follows.
proof fn lemma_change_counted(conn: ConnectionView, change: ChangeView)
    requires
        distinct(conn.subscriptions),
    ensures
        distinct(conn.changed(change).subscriptions),
        counted(change_acts(conn.subscriptions, change)) == conn.changed(change).subscriptions.len()
            - conn.subscriptions.len(),
{
    let acts = change_acts(conn.subscriptions, change);
    assert(acts.len() <= 1);
    if acts.len() == 1 {
        assert(acts.drop_last() =~= Seq::empty());
        assert(counted(acts.drop_last()) == 0);
    }
    match change {
        ChangeView::Subscribe(script_hash, status_hash) => {
            lemma_subscribe(conn.subscriptions, script_hash, status_hash);
        },
        ChangeView::Unsubscribe(script_hash) => {
            lemma_unsubscribe_forgets(conn.subscriptions, script_hash);
        },
        _ => {},
    }
}

/// To serve a request sends nothing, and belongs to neither end of a connection.
proof fn lemma_value_in_between(
    s: Settings,
    conn: ConnectionView,
    cmd: JsonView,
    w: World,
    t: int,
)
    ensures
        in_between(value_course(s, conn, cmd, w, t).acts),
        forall|i: int|
            0 <= i < value_course(s, conn, cmd, w, t).acts.len() ==> !(
            #[trigger] value_course(s, conn, cmd, w, t).acts[i] is Send),
{
    let acts = value_course(s, conn, cmd, w, t).acts;
    assert forall|i: int| 0 <= i < acts.len() implies !at_ends(#[trigger] acts[i]) && !(
    acts[i] is Send) by {
        reveal(value_course);
    }
}

/// A request counts what it adds to, or takes from, what the client follows.
proof fn lemma_value_counted(s: Settings, conn: ConnectionView, cmd: JsonView, w: World, t: int)
    requires
        distinct(conn.subscriptions),
    ensures
        distinct(value_course(s, conn, cmd, w, t).conn.subscriptions),
        counted(value_course(s, conn, cmd, w, t).acts) == value_course(
            s,
            conn,
            cmd,
            w,
            t,
        ).conn.subscriptions.len() - conn.subscriptions.len(),
{
    reveal(value_course);
    let course = value_course(s, conn, cmd, w, t);
    let first = if s.rpc_logging.enabled {
        t + 1
    } else {
        t
    };
    let run = match command_parts(cmd) {
        Some((method, params, id)) => command_run(
            s,
            conn.subscriptions,
            method,
            params,
            w,
            first,
        ),
        None => None,
    };
    match run {
        None => {
            assert(counts_nothing(course.acts));
            lemma_counted_nothing(course.acts);
        },
        Some(run) => {
            let change = change_acts(conn.subscriptions, run.outcome.change);
            let at = course.acts.len() - (if s.rpc_logging.enabled {
                2int
            } else {
                0
            }) - (if run.outcome.reply is Err {
                2int
            } else {
                1
            }) - change.len();
            let before = course.acts.take(at);
            let after = course.acts.skip(at + change.len());
            assert(course.acts =~= before + change + after);
            assert(counts_nothing(before));
            assert(counts_nothing(after));
            lemma_counted_nothing(before);
            lemma_counted_nothing(after);
            lemma_counted_concat(before + change, after);
            lemma_counted_concat(before, change);
            lemma_change_counted(conn, run.outcome.change);
        },
    }
}

/// A batch counts what it adds to, or takes from, what the client follows.
proof fn lemma_batch_counted(
    s: Settings,
    conn: ConnectionView,
    cmds: Seq<JsonView>,
    replies: Seq<JsonView>,
    w: World,
    t: int,
)
    requires
        distinct(conn.subscriptions),
    ensures
        in_between(batch_course(s, conn, cmds, replies, w, t).acts),
        sends_last(batch_course(s, conn, cmds, replies, w, t).acts),
        distinct(batch_course(s, conn, cmds, replies, w, t).conn.subscriptions),
        counted(batch_course(s, conn, cmds, replies, w, t).acts) == batch_course(
            s,
            conn,
            cmds,
            replies,
            w,
            t,
        ).conn.subscriptions.len() - conn.subscriptions.len(),
    decreases cmds.len(),
{
    reveal(batch_course);
    if cmds.len() == 0 {
        let acts = sent(conn, JsonView::Array(replies), t).acts;
        assert(counts_nothing(acts));
        lemma_counted_nothing(acts);
    } else {
        let first = value_course(s, conn, cmds[0], w, t);
        lemma_value_counted(s, conn, cmds[0], w, t);
        lemma_value_in_between(s, conn, cmds[0], w, t);
        if first.result is Ok {
            let (rest, more) = (cmds.drop_first(), replies.push(first.result->Ok_0));
            lemma_batch_counted(s, first.conn, rest, more, w, first.end);
            lemma_counted_concat(
                first.acts,
                batch_course(s, first.conn, rest, more, w, first.end).acts,
            );
        }
    }
}

/// Nothing but questions is asked.
spec fn asks_only(acts: Seq<Act>) -> bool {
    forall|i: int| 0 <= i < acts.len() ==> #[trigger] acts[i] is Ask
}

/// A check of the scripts asks questions alone, and follows what was followed.
proof fn lemma_scan_counted(
    s: Settings,
    conn: ConnectionView,
    notes: Seq<JsonView>,
    i: int,
    dirty: Set<FullHash>,
    tip_changed: bool,
    w: World,
    t: int,
)
    requires
        0 <= i <= conn.subscriptions.len(),
        distinct(conn.subscriptions),
    ensures
        asks_only(scan_course(s, conn, notes, i, dirty, tip_changed, w, t).acts),
        distinct(scan_course(s, conn, notes, i, dirty, tip_changed, w, t).conn.subscriptions),
        scan_course(s, conn, notes, i, dirty, tip_changed, w, t).conn.subscriptions.len()
            == conn.subscriptions.len(),
    decreases conn.subscriptions.len() - i,
{
    reveal(scan_course);
    if i < conn.subscriptions.len() {
        let script_hash = conn.subscriptions[i].script_hash;
        if !tip_changed && !dirty.contains(script_hash) {
            lemma_scan_counted(s, conn, notes, i + 1, dirty, tip_changed, w, t);
        } else {
            let items = (w(t).history)(script_hash, (s.txs_limit + 1) as usize);
            let asks = status_asks(items);
            let (conn1, notes1) = status_checked(conn, notes, i, status_at(items, w(t + 1)));
            assert forall|a: int, b: int| 0 <= a < b < conn1.subscriptions.len() implies (
            #[trigger] conn1.subscriptions[a]).script_hash != (
            #[trigger] conn1.subscriptions[b]).script_hash by {
                assert(conn.subscriptions[a].script_hash != conn.subscriptions[b].script_hash);
            }
            lemma_scan_counted(
                s,
                conn1,
                notes1,
                i + 1,
                dirty,
                tip_changed,
                w,
                t + 1 + asks.len(),
            );
        }
    }
}

/// Each message counts what it adds to, or takes from, the scripts that the
/// client follows, before anything is sent: the count of a connection is the number
/// of its subscriptions, also where a text cannot be sent.
pub proof fn lemma_message_counted(
    s: Settings,
    conn: ConnectionView,
    message: Message,
    w: World,
    t: int,
)
    requires
        distinct(conn.subscriptions),
    ensures
        clients(message_course(s, conn, message, w, t).acts) == 0,
        sends_last(message_course(s, conn, message, w, t).acts),
        distinct(message_course(s, conn, message, w, t).conn.subscriptions),
        counted(message_course(s, conn, message, w, t).acts) == message_course(
            s,
            conn,
            message,
            w,
            t,
        ).conn.subscriptions.len() - conn.subscriptions.len(),
{
    let course = message_course(s, conn, message, w, t);
    match message {
        Message::Request(text) => match json_of_text(text@) {
            Ok(JsonView::Array(cmds)) => {
                lemma_batch_counted(s, conn, cmds, Seq::empty(), w, t);
                lemma_in_between(course.acts);
            },
            Ok(cmd) => {
                let first = value_course(s, conn, cmd, w, t);
                lemma_value_counted(s, conn, cmd, w, t);
                lemma_value_in_between(s, conn, cmd, w, t);
                if first.result is Ok {
                    let last = sent(first.conn, first.result->Ok_0, first.end).acts;
                    assert(counts_nothing(last));
                    lemma_counted_nothing(last);
                    lemma_counted_concat(first.acts, last);
                    assert(course.acts =~= first.acts + last);
                }
                assert(in_between(course.acts));
                lemma_in_between(course.acts);
            },
            Err(_) => {},
        },
        Message::PeriodicUpdate { dirty, tip_changed } => {
            let update = update_course(s, conn, dirty@, tip_changed, w, t);
            lemma_update_counted(s, conn, dirty@, tip_changed, w, t);
            let start = seq![Act::StartTimer("periodic_update"@)];
            let rest = notified(update);
            assert(counts_nothing(rest.acts)) by {
                if update.result is Ok {
                    let notes = update.result->Ok_0;
                    let sends = seq![Act::StopTimer] + notes.map_values(
                        |note: JsonView| Act::Send(line(note)),
                    );
                    assert(counts_nothing(sends));
                    assert(rest.acts =~= update.acts + sends);
                }
            }
            assert(course.acts =~= start + rest.acts);
            assert(counts_nothing(course.acts));
            assert(in_between(course.acts));
            lemma_counted_nothing(course.acts);
            lemma_in_between(course.acts);
        },
        Message::Done => {},
    }
}

/// An update asks questions alone, and follows what was followed.
proof fn lemma_update_counted(
    s: Settings,
    conn: ConnectionView,
    dirty: Set<FullHash>,
    tip_changed: bool,
    w: World,
    t: int,
)
    requires
        distinct(conn.subscriptions),
    ensures
        asks_only(update_course(s, conn, dirty, tip_changed, w, t).acts),
        distinct(update_course(s, conn, dirty, tip_changed, w, t).conn.subscriptions),
        update_course(s, conn, dirty, tip_changed, w, t).conn.subscriptions.len()
            == conn.subscriptions.len(),
{
    match conn.last_header_entry {
        None => {
            lemma_scan_counted(s, conn, Seq::empty(), 0, dirty, tip_changed, w, t);
        },
        Some(last) => {
            let entry = w(t).best_header;
            let conn1 = conn.changed(ChangeView::Follow(entry));
            let notes = if entry == last {
                Seq::empty()
            } else {
                seq![header_note(entry)]
            };
            lemma_scan_counted(s, conn1, notes, 0, dirty, tip_changed, w, t + 1);
            let rest = header_checked(s, conn, last, entry, dirty, tip_changed, w, t + 1);
            assert(asks_only(rest.acts));
        },
    }
}

/// What a client follows that has just connected.
pub open spec fn fresh() -> ConnectionView {
    ConnectionView { last_header_entry: None, subscriptions: Seq::empty() }
}

/// All that a connection does, from its beginning to its end. Of what it does with
/// its messages, the first `cut` things are done.
pub open spec fn life(s: Settings, messages: Seq<Message>, cut: int, w: World, t: int) -> Seq<Act> {
    let course = messages_course(s, fresh(), messages, w, t);
    opened(s) + course.acts.take(cut) + closed(s, course.conn)
}

/// A connection ends when it has done all that its messages ask for, or at a text
/// for the last of them that cannot be sent.
pub open spec fn can_end(s: Settings, messages: Seq<Message>, cut: int, w: World, t: int) -> bool {
    let acts = messages_course(s, fresh(), messages, w, t).acts;
    ||| cut == acts.len()
    ||| {
        &&& messages.len() > 0
        &&& messages_course(s, fresh(), messages.drop_last(), w, t).acts.len() <= cut < acts.len()
        &&& acts[cut] is Send
    }
}

/// The messages of a connection count what they add to, and take from, what its
/// client follows.
proof fn lemma_messages_counted(s: Settings, messages: Seq<Message>, w: World, t: int)
    ensures
        clients(messages_course(s, fresh(), messages, w, t).acts) == 0,
        distinct(messages_course(s, fresh(), messages, w, t).conn.subscriptions),
        counted(messages_course(s, fresh(), messages, w, t).acts) == messages_course(
            s,
            fresh(),
            messages,
            w,
            t,
        ).conn.subscriptions.len(),
    decreases messages.len(),
{
    if messages.len() > 0 {
        let before = messages_course(s, fresh(), messages.drop_last(), w, t);
        lemma_messages_counted(s, messages.drop_last(), w, t);
        if before.result == Ok::<bool, FaultView>(true) {
            let last = message_course(s, before.conn, messages.last(), w, before.end);
            lemma_message_counted(s, before.conn, messages.last(), w, before.end);
            lemma_counted_concat(before.acts, last.acts);
            lemma_clients_concat(before.acts, last.acts);
        }
    }
}

/// Over its life, a connection counts as many clients and subscriptions off as it
/// counts up, whatever it is told, and whether it ends at the end of a message, at
/// a fault, or at a text that cannot be sent.
pub proof fn lemma_life_counts_nothing(
    s: Settings,
    messages: Seq<Message>,
    cut: int,
    w: World,
    t: int,
)
    requires
        can_end(s, messages, cut, w, t),
    ensures
        clients(life(s, messages, cut, w, t)) == 0,
        counted(life(s, messages, cut, w, t)) == 0,
{
    let course = messages_course(s, fresh(), messages, w, t);
    let n = course.conn.subscriptions.len() as int;
    let done = course.acts.take(cut);
    lemma_messages_counted(s, messages, w, t);
    if cut < course.acts.len() {
        let before = messages_course(s, fresh(), messages.drop_last(), w, t);
        let last = message_course(s, before.conn, messages.last(), w, before.end);
        lemma_messages_counted(s, messages.drop_last(), w, t);
        lemma_message_counted(s, before.conn, messages.last(), w, before.end);
        let at = cut - before.acts.len();
        let rest = course.acts.skip(cut);
        assert(course.acts =~= before.acts + last.acts);
        assert(last.acts[at] == course.acts[cut]);
        assert forall|i: int| 0 <= i < rest.len() implies #[trigger] rest[i] is Send by {
            assert(rest[i] == last.acts[at + i]);
        }
        lemma_counted_nothing(rest);
        lemma_in_between(rest);
        assert(course.acts =~= done + rest);
        lemma_counted_concat(done, rest);
        lemma_clients_concat(done, rest);
    } else {
        assert(done =~= course.acts);
    }
    lemma_ends_counted(s, course.conn);
    lemma_counted_concat(opened(s) + done, closed(s, course.conn));
    lemma_counted_concat(opened(s), done);
    lemma_clients_concat(opened(s) + done, closed(s, course.conn));
    lemma_clients_concat(opened(s), done);
}

/// What is counted when a connection begins and when it ends.
proof fn lemma_ends_counted(s: Settings, conn: ConnectionView)
    ensures
        clients(opened(s)) == 1,
        counted(opened(s)) == 0,
        clients(closed(s, conn)) == -1,
        counted(closed(s, conn)) == -conn.subscriptions.len(),
{
    let n = conn.subscriptions.len() as int;
    let first = seq![Act::Connected];
    let last = seq![Act::Disconnected, Act::Forgotten(n)];
    reveal_with_fuel(clients, 3);
    reveal_with_fuel(counted, 3);
    assert(first.drop_last() =~= Seq::empty());
    assert(last.drop_last() =~= seq![Act::Disconnected]);
    assert(last.drop_last().drop_last() =~= Seq::empty());
    let (a, b) = (
        event_acts(s, "connection_established"@),
        event_acts(s, "connection_closed"@),
    );
    assert(counts_nothing(a) && counts_nothing(b) && in_between(a) && in_between(b));
    lemma_counted_nothing(a);
    lemma_counted_nothing(b);
    lemma_in_between(a);
    lemma_in_between(b);
    lemma_counted_concat(first, a);
    lemma_counted_concat(last, b);
    lemma_clients_concat(first, a);
    lemma_clients_concat(last, b);
}

/// The requests about a script are known.
proof fn lemma_script_methods(
    s: Settings,
    subscriptions: Seq<Subscription>,
    params: Seq<JsonView>,
    w: World,
    t: int,
)
    ensures
        command_run(s, subscriptions, "blockchain.scripthash.subscribe"@, params, w, t) == Some(
            scripthash_subscribe_run(s, params, w, t),
        ),
        command_run(s, subscriptions, "blockchain.scripthash.unsubscribe"@, params, w, t) == Some(
            scripthash_unsubscribe_run(subscriptions, params),
        ),
{
    reveal(command_run);
    reveal_strlit("blockchain.block.header");
    reveal_strlit("blockchain.block.headers");
    reveal_strlit("blockchain.estimatefee");
    reveal_strlit("blockchain.headers.subscribe");
    reveal_strlit("blockchain.relayfee");
    reveal_strlit("blockchain.scripthash.get_balance");
    reveal_strlit("blockchain.scripthash.get_history");
    reveal_strlit("blockchain.scripthash.listunspent");
    reveal_strlit("blockchain.scripthash.subscribe");
    reveal_strlit("blockchain.scripthash.unsubscribe");
    assert("blockchain.scripthash.get_balance"@[22] == 'g');
    assert("blockchain.scripthash.get_history"@[22] == 'g');
    assert("blockchain.scripthash.listunspent"@[22] == 'l');
    assert("blockchain.scripthash.unsubscribe"@[22] == 'u');
    assert("blockchain.scripthash.subscribe"@.len() == 31);
    assert("blockchain.scripthash.unsubscribe"@.len() == 33);
}

/// The question at which a request begins, once its start was taken down.
pub open spec fn first_question(s: Settings, t: int) -> int {
    if s.rpc_logging.enabled {
        t + 1
    } else {
        t
    }
}

/// A client that follows a script with no more history than is served is told
/// the hash of that history, which is then on record; the others stay as they
/// are. A script that was not followed before counts as one more.
pub proof fn lemma_subscribe_request(
    s: Settings,
    conn: ConnectionView,
    cmd: JsonView,
    params: Seq<JsonView>,
    id: JsonView,
    script_hash: FullHash,
    w: World,
    t: int,
)
    requires
        distinct(conn.subscriptions),
        command_parts(cmd) == Some(("blockchain.scripthash.subscribe"@, params, id)),
        hash_param_or(param(params, 0), "bad script_hash"@) == Ok::<FullHash, ErrorView>(
            script_hash,
        ),
        history_of(s, w(first_question(s, t)), script_hash).len() <= s.txs_limit,
    ensures
        ({
            let course = value_course(s, conn, cmd, w, t);
            let status_hash = status_at(
                history_of(s, w(first_question(s, t)), script_hash),
                w(first_question(s, t) + 1),
            );
            &&& course.result == Ok::<JsonView, FaultView>(
                reply_json(id, Ok(status_json(status_hash))),
            )
            &&& distinct(course.conn.subscriptions)
            &&& follows(course.conn.subscriptions, script_hash)
            &&& status_map(course.conn.subscriptions) == status_map(conn.subscriptions).insert(
                script_hash,
                status_hash,
            )
            &&& counted(course.acts) == (if follows(conn.subscriptions, script_hash) {
                0int
            } else {
                1
            })
        }),
{
    let first = first_question(s, t);
    let status_hash = status_at(history_of(s, w(first), script_hash), w(first + 1));
    let course = value_course(s, conn, cmd, w, t);
    lemma_script_methods(s, conn.subscriptions, params, w, first);
    lemma_value_counted(s, conn, cmd, w, t);
    lemma_subscribe(conn.subscriptions, script_hash, status_hash);
    reveal(value_course);
    assert(course.conn == conn.changed(ChangeView::Subscribe(script_hash, status_hash)));
    lemma_status_map_keys(course.conn.subscriptions, script_hash);
}

/// A client that follows a script no longer is told whether it did. The script is
/// off the record then; the others stay as they are. One that was followed counts
/// as one less.
pub proof fn lemma_unsubscribe_request(
    s: Settings,
    conn: ConnectionView,
    cmd: JsonView,
    params: Seq<JsonView>,
    id: JsonView,
    script_hash: FullHash,
    w: World,
    t: int,
)
    requires
        distinct(conn.subscriptions),
        command_parts(cmd) == Some(("blockchain.scripthash.unsubscribe"@, params, id)),
        hash_param_or(param(params, 0), "bad script_hash"@) == Ok::<FullHash, ErrorView>(
            script_hash,
        ),
    ensures
        ({
            let course = value_course(s, conn, cmd, w, t);
            let followed = follows(conn.subscriptions, script_hash);
            &&& course.result == Ok::<JsonView, FaultView>(
                reply_json(id, Ok(JsonView::Bool(followed))),
            )
            &&& distinct(course.conn.subscriptions)
            &&& !follows(course.conn.subscriptions, script_hash)
            &&& status_map(course.conn.subscriptions) == status_map(conn.subscriptions).remove(
                script_hash,
            )
            &&& counted(course.acts) == (if followed {
                -1int
            } else {
                0
            })
        }),
{
    let course = value_course(s, conn, cmd, w, t);
    lemma_script_methods(s, conn.subscriptions, params, w, first_question(s, t));
    lemma_value_counted(s, conn, cmd, w, t);
    lemma_unsubscribe_forgets(conn.subscriptions, script_hash);
    reveal(value_course);
    assert(course.conn == conn.changed(ChangeView::Unsubscribe(script_hash)));
}

/// A client that follows a script and then gives it up twice is told first that
/// it followed it, and then that it did not. The other scripts stay as they were,
/// and the count goes up at most once, down by one, and then stays.
pub proof fn lemma_subscribe_undone(
    s: Settings,
    conn: ConnectionView,
    cmds: (JsonView, JsonView, JsonView),
    params: Seq<JsonView>,
    ids: (JsonView, JsonView, JsonView),
    script_hash: FullHash,
    w: World,
    t: (int, int, int),
)
    requires
        distinct(conn.subscriptions),
        command_parts(cmds.0) == Some(("blockchain.scripthash.subscribe"@, params, ids.0)),
        command_parts(cmds.1) == Some(("blockchain.scripthash.unsubscribe"@, params, ids.1)),
        command_parts(cmds.2) == Some(("blockchain.scripthash.unsubscribe"@, params, ids.2)),
        hash_param_or(param(params, 0), "bad script_hash"@) == Ok::<FullHash, ErrorView>(
            script_hash,
        ),
        history_of(s, w(first_question(s, t.0)), script_hash).len() <= s.txs_limit,
    ensures
        ({
            let first = value_course(s, conn, cmds.0, w, t.0);
            let second = value_course(s, first.conn, cmds.1, w, t.1);
            let third = value_course(s, second.conn, cmds.2, w, t.2);
            &&& second.result == Ok::<JsonView, FaultView>(
                reply_json(ids.1, Ok(JsonView::Bool(true))),
            )
            &&& third.result == Ok::<JsonView, FaultView>(
                reply_json(ids.2, Ok(JsonView::Bool(false))),
            )
            &&& status_map(third.conn.subscriptions) == status_map(conn.subscriptions).remove(
                script_hash,
            )
            &&& counted(first.acts) == (if follows(conn.subscriptions, script_hash) {
                0int
            } else {
                1
            })
            &&& counted(second.acts) == -1
            &&& counted(third.acts) == 0
        }),
{
    let first = value_course(s, conn, cmds.0, w, t.0);
    let second = value_course(s, first.conn, cmds.1, w, t.1);
    let third = value_course(s, second.conn, cmds.2, w, t.2);
    lemma_subscribe_request(s, conn, cmds.0, params, ids.0, script_hash, w, t.0);
    lemma_unsubscribe_request(s, first.conn, cmds.1, params, ids.1, script_hash, w, t.1);
    lemma_unsubscribe_request(s, second.conn, cmds.2, params, ids.2, script_hash, w, t.2);
    assert(status_map(third.conn.subscriptions) =~= status_map(conn.subscriptions).remove(
        script_hash,
    ));
}

/// The scripts whose history has another hash than the client was last told, in
/// order.
pub open spec fn changed_scripts(
    s: Settings,
    ix: Index,
    subscriptions: Seq<Subscription>,
) -> Seq<FullHash>
    decreases subscriptions.len(),
{
    if subscriptions.len() == 0 {
        Seq::empty()
    } else {
        let first = subscriptions[0];
        let rest = changed_scripts(s, ix, subscriptions.drop_first());
        if current_status(s, ix, first.script_hash) != first.status_hash {
            seq![first.script_hash] + rest
        } else {
            rest
        }
    }
}

/// The note for a script whose history changed.
pub open spec fn note_of(s: Settings, ix: Index) -> spec_fn(FullHash) -> JsonView {
    |script_hash: FullHash| status_note(script_hash, current_status(s, ix, script_hash))
}

/// With a new block, there is one note for each script whose history changed.
proof fn lemma_notes_of_changed(
    s: Settings,
    ix: Index,
    subscriptions: Seq<Subscription>,
    dirty: Set<FullHash>,
)
    ensures
        status_notes(s, ix, subscriptions, dirty, true) == changed_scripts(
            s,
            ix,
            subscriptions,
        ).map_values(note_of(s, ix)),
    decreases subscriptions.len(),
{
    if subscriptions.len() == 0 {
        assert(status_notes(s, ix, subscriptions, dirty, true) =~= changed_scripts(
            s,
            ix,
            subscriptions,
        ).map_values(note_of(s, ix)));
    } else {
        let rest = subscriptions.drop_first();
        lemma_notes_of_changed(s, ix, rest, dirty);
        assert(status_notes(s, ix, subscriptions, dirty, true) =~= changed_scripts(
            s,
            ix,
            subscriptions,
        ).map_values(note_of(s, ix)));
    }
}

/// Each script whose history changed is listed once, and no other.
proof fn lemma_changed_scripts(s: Settings, ix: Index, subscriptions: Seq<Subscription>)
    requires
        distinct(subscriptions),
    ensures
        changed_scripts(s, ix, subscriptions).no_duplicates(),
        forall|h: FullHash| #[trigger]
            changed_scripts(s, ix, subscriptions).contains(h) <==> status_map(
                subscriptions,
            ).contains_key(h) && status_map(subscriptions)[h] != current_status(s, ix, h),
    decreases subscriptions.len(),
{
    let all = changed_scripts(s, ix, subscriptions);
    if subscriptions.len() > 0 {
        let first = subscriptions[0];
        let rest = subscriptions.drop_first();
        let others = changed_scripts(s, ix, rest);
        assert(distinct(rest)) by {
            assert forall|a: int, b: int| 0 <= a < b < rest.len() implies (
            #[trigger] rest[a]).script_hash != (#[trigger] rest[b]).script_hash by {
                assert(rest[a] == subscriptions[a + 1] && rest[b] == subscriptions[b + 1]);
            }
        }
        lemma_changed_scripts(s, ix, rest);
        lemma_status_map_first(subscriptions);
        lemma_status_map_keys(rest, first.script_hash);
        assert(!follows(rest, first.script_hash)) by {
            assert forall|a: int| 0 <= a < rest.len() implies (#[trigger] rest[a]).script_hash
                != first.script_hash by {
                assert(rest[a] == subscriptions[a + 1]);
            }
        }
        assert(!others.contains(first.script_hash));
        if current_status(s, ix, first.script_hash) != first.status_hash {
            assert forall|h: FullHash| #[trigger] all.contains(h) <==> others.contains(h) || h
                == first.script_hash by {
                if others.contains(h) {
                    let j = choose|j: int| 0 <= j < others.len() && others[j] == h;
                    assert(all[j + 1] == h);
                }
                if h == first.script_hash {
                    assert(all[0] == h);
                }
                if all.contains(h) {
                    let j = choose|j: int| 0 <= j < all.len() && all[j] == h;
                    if j > 0 {
                        assert(others[j - 1] == h);
                    }
                }
            }
            assert forall|a: int, b: int| 0 <= a < b < all.len() implies all[a] != all[b] by {
                assert(all[b] == others[b - 1]);
                assert(others.contains(all[b]));
                if a > 0 {
                    assert(all[a] == others[a - 1]);
                }
            }
        }
    }
}

/// The first script on record, and the others.
proof fn lemma_status_map_first(subscriptions: Seq<Subscription>)
    requires
        distinct(subscriptions),
        subscriptions.len() > 0,
    ensures
        status_map(subscriptions) == status_map(subscriptions.drop_first()).insert(
            subscriptions[0].script_hash,
            subscriptions[0].status_hash,
        ),
    decreases subscriptions.len(),
{
    let first = subscriptions[0];
    let front = subscriptions.drop_last();
    let rest = subscriptions.drop_first();
    if subscriptions.len() == 1 {
        assert(front =~= Seq::empty());
        assert(rest =~= Seq::empty());
        assert(subscriptions.last() == first);
    } else {
        let last = subscriptions.last();
        assert(distinct(front)) by {
            assert forall|a: int, b: int| 0 <= a < b < front.len() implies (
            #[trigger] front[a]).script_hash != (#[trigger] front[b]).script_hash by {
                assert(front[a] == subscriptions[a] && front[b] == subscriptions[b]);
            }
        }
        lemma_status_map_first(front);
        assert(front[0] == first);
        assert(rest.drop_last() =~= front.drop_first());
        assert(rest.last() == last);
        assert(subscriptions[0].script_hash != subscriptions[subscriptions.len() - 1].script_hash);
        assert(status_map(subscriptions) =~= status_map(rest).insert(
            first.script_hash,
            first.status_hash,
        ));
    }
}

/// While the index stays as it is, and no script has too much history, an update
/// for a new block succeeds whatever else is said to have changed. The same
/// scripts are followed then, each with the hash of its history on record. The
/// client is told the best header, if it follows it and was last told another
/// one, and each script whose history changed, once, and nothing else. The same
/// update again has nothing to tell.
pub proof fn lemma_tip_update(
    s: Settings,
    conn: ConnectionView,
    dirty: Set<FullHash>,
    ix: Index,
    w: World,
    t: int,
    t2: int,
)
    requires
        steady(w, ix),
        distinct(conn.subscriptions),
        forall|h: FullHash| #[trigger]
            follows(conn.subscriptions, h) ==> history_of(s, ix, h).len() <= s.txs_limit,
    ensures
        ({
            let course = update_course(s, conn, dirty, true, w, t);
            let again = update_course(s, course.conn, dirty, true, w, t2);
            let changed = changed_scripts(s, ix, conn.subscriptions);
            let before = status_map(conn.subscriptions);
            let after = status_map(course.conn.subscriptions);
            &&& course.result == Ok::<Seq<JsonView>, FaultView>(
                header_notes(conn, ix) + changed.map_values(note_of(s, ix)),
            )
            &&& changed.no_duplicates()
            &&& forall|h: FullHash| #[trigger]
                changed.contains(h) <==> before.contains_key(h) && before[h] != current_status(
                    s,
                    ix,
                    h,
                )
            &&& after.dom() == before.dom()
            &&& forall|h: FullHash| #[trigger]
                before.contains_key(h) ==> after[h] == current_status(s, ix, h)
            &&& again.result == Ok::<Seq<JsonView>, FaultView>(Seq::empty())
            &&& again.conn == course.conn
        }),
{
    let subscriptions = conn.subscriptions;
    let course = update_course(s, conn, dirty, true, w, t);
    let fresh = refreshed(s, ix, subscriptions, 0, dirty, true);
    assert(within_limit(s, ix, subscriptions, 0, dirty, true)) by {
        assert forall|j: int| 0 <= j < subscriptions.len() implies history_of(
            s,
            ix,
            (#[trigger] subscriptions[j]).script_hash,
        ).len() <= s.txs_limit by {
            assert(follows(subscriptions, subscriptions[j].script_hash));
        }
    }
    lemma_update_result(s, conn, dirty, true, ix, w, t);
    lemma_update_told_once(s, conn, dirty, true, ix, w, t, t2);
    lemma_notes_of_changed(s, ix, subscriptions, dirty);
    lemma_changed_scripts(s, ix, subscriptions);
    assert(course.conn == updated(s, ix, conn, dirty, true));
    assert(distinct(fresh)) by {
        assert forall|a: int, b: int| 0 <= a < b < fresh.len() implies (
        #[trigger] fresh[a]).script_hash != (#[trigger] fresh[b]).script_hash by {
            assert(subscriptions[a].script_hash != subscriptions[b].script_hash);
        }
    }
    let (before, after) = (status_map(subscriptions), status_map(fresh));
    assert forall|h: FullHash| #[trigger] before.contains_key(h) implies after.contains_key(h)
        && after[h] == current_status(s, ix, h) by {
        lemma_status_map_keys(subscriptions, h);
        let i = choose|i: int|
            0 <= i < subscriptions.len() && (#[trigger] subscriptions[i]).script_hash == h;
        assert(fresh[i].script_hash == h);
        lemma_status_map_value(fresh, i);
    }
    assert forall|h: FullHash| #[trigger] after.contains_key(h) implies before.contains_key(h) by {
        lemma_status_map_keys(fresh, h);
        let i = choose|i: int| 0 <= i < fresh.len() && (#[trigger] fresh[i]).script_hash == h;
        assert(subscriptions[i].script_hash == h);
        lemma_status_map_keys(subscriptions, h);
    }
    assert(after.dom() =~= before.dom());
}

} // verus!
