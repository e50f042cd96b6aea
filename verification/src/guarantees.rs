//! What holds of the dialogue with a client as a whole.

use crate::commands::{
    block_headers_run, command_run, scripthash_get_history_run, scripthash_subscribe_run,
    status_asks, status_at, transaction_broadcast_run, ChangeView, Subscription,
};
use crate::connection::ConnectionView;
use crate::dialogue::{
    asking, batch_course, change_acts, command_parts, faulted, header_checked, header_note, line, message_course,
    preceded, reply_json, response_event, scan_course, sent, status_checked, status_note,
    update_course, value_course, Act, FaultView,
};
use crate::hash::FullHash;
use crate::params::{hash_param_or, param, ErrorView};
use crate::history::{
    electrum_height, history_entries, history_entry, mempool_txids, status_hash, status_json,
    too_popular,
};
use crate::messages::Message;
use crate::session::{effect_acts, touched, Next, Session, Step};
use crate::json::{field_in, json_of_text, JsonView};

use crate::query::{range_len, HistoryItem, Index, LookupView, World};

use crate::settings::{Settings, MAX_ARRAY_BATCH, MAX_HEADERS};
use vstd::prelude::*;

verus! {

/// A reply has the id of its request, and either a result or an error.
pub proof fn lemma_reply_fields(id: JsonView, result: Result<JsonView, ErrorView>)
    ensures
        reply_json(id, result).field("jsonrpc"@) == Some(JsonView::Text("2.0"@)),
        reply_json(id, result).field("id"@) == Some(id),
        reply_json(id, result).field("result"@) == (match result {
            Ok(value) => Some(value),
            Err(_) => None,
        }),
        reply_json(id, result).field("error"@) == (match result {
            Ok(_) => None,
            Err(e) => Some(JsonView::Text(e.message)),
        }),
{
    reveal_strlit("jsonrpc");
    reveal_strlit("id");
    reveal_strlit("result");
    reveal_strlit("error");
    assert("result"@[0] == 'r' && "error"@[0] == 'e' && "id"@[0] == 'i' && "jsonrpc"@[0] == 'j');
    reveal_with_fuel(field_in, 4);
}

/// A request that fails changes nothing of what the client follows.
pub proof fn lemma_failure_changes_nothing(
    s: Settings,
    subscriptions: Seq<Subscription>,
    method: Seq<char>,
    params: Seq<JsonView>,
    w: World,
    t: int,
)
    ensures
        command_run(s, subscriptions, method, params, w, t) matches Some(run) ==> (
        run.outcome.reply is Err ==> run.outcome.change is Nothing),
{
    reveal(command_run);
}

/// A connection tells itself after a broadcast to check all subscriptions, as for a
/// new block, exactly if the broadcast succeeds.
pub proof fn lemma_broadcast_rescans(
    subscriptions: Seq<Subscription>,
    params: Seq<JsonView>,
    w: World,
    t: int,
)
    ensures
        change_acts(subscriptions, transaction_broadcast_run(params, w, t).outcome.change) == (
        if transaction_broadcast_run(params, w, t).outcome.reply is Ok {
            seq![Act::Update(Set::empty(), true)]
        } else {
            Seq::empty()
        }),
{
}

/// A request gets no more than so many headers.
pub proof fn lemma_headers_limited(params: Seq<JsonView>, w: World, t: int)
    ensures
        block_headers_run(params, w, t).asks.len() > 0 ==> (block_headers_run(
            params,
            w,
            t,
        ).asks[0] matches LookupView::HeadersAt(start, end) && range_len(start, end)
            <= MAX_HEADERS),
{
}

/// The texts that are sent to the client, in order.
pub open spec fn sends(acts: Seq<Act>) -> Seq<Seq<char>>
    decreases acts.len(),
{
    if acts.len() == 0 {
        Seq::empty()
    } else {
        match acts.last() {
            Act::Send(text) => sends(acts.drop_last()).push(text),
            _ => sends(acts.drop_last()),
        }
    }
}

/// The scripts whose history is asked for, in order.
pub open spec fn histories(acts: Seq<Act>) -> Seq<FullHash>
    decreases acts.len(),
{
    if acts.len() == 0 {
        Seq::empty()
    } else {
        match acts.last() {
            Act::Ask(LookupView::History(script_hash, _)) => histories(acts.drop_last()).push(
                script_hash,
            ),
            _ => histories(acts.drop_last()),
        }
    }
}

/// What is sent by two things done after each other.
proof fn lemma_sends_concat(a: Seq<Act>, b: Seq<Act>)
    ensures
        sends(a + b) == sends(a) + sends(b),
    decreases b.len(),
{
    if b.len() == 0 {
        assert(a + b =~= a);
        assert(sends(a) + sends(b) =~= sends(a));
    } else {
        lemma_sends_concat(a, b.drop_last());
        assert((a + b).drop_last() =~= a + b.drop_last());
        assert((a + b).last() == b.last());
        assert(sends(a + b) =~= sends(a) + sends(b));
    }
}

/// What is asked by two things done after each other.
proof fn lemma_histories_concat(a: Seq<Act>, b: Seq<Act>)
    ensures
        histories(a + b) == histories(a) + histories(b),
    decreases b.len(),
{
    if b.len() == 0 {
        assert(a + b =~= a);
        assert(histories(a) + histories(b) =~= histories(a));
    } else {
        lemma_histories_concat(a, b.drop_last());
        assert((a + b).drop_last() =~= a + b.drop_last());
        assert((a + b).last() == b.last());
        assert(histories(a + b) =~= histories(a) + histories(b));
    }
}

/// To serve a request sends nothing by itself.
proof fn lemma_value_sends_nothing(
    s: Settings,
    conn: ConnectionView,
    cmd: JsonView,
    w: World,
    t: int,
)
    ensures
        sends(value_course(s, conn, cmd, w, t).acts) == Seq::<Seq<char>>::empty(),
{
    let acts = value_course(s, conn, cmd, w, t).acts;
    assert forall|i: int| 0 <= i < acts.len() implies !(#[trigger] acts[i] is Send) by {
        reveal(value_course);
    }
    lemma_no_sends(acts);
}

/// Where nothing is a text to send, none is sent.
proof fn lemma_no_sends(acts: Seq<Act>)
    requires
        forall|i: int| 0 <= i < acts.len() ==> !(#[trigger] acts[i] is Send),
    ensures
        sends(acts) == Seq::<Seq<char>>::empty(),
    decreases acts.len(),
{
    if acts.len() > 0 {
        let front = acts.drop_last();
        assert forall|i: int| 0 <= i < front.len() implies !(#[trigger] front[i] is Send) by {
            assert(front[i] == acts[i]);
        }
        lemma_no_sends(front);
        assert(acts[acts.len() - 1] == acts.last());
    }
}

/// `reply` is a reply to `cmd`.
pub open spec fn answers(cmd: JsonView, reply: JsonView) -> bool {
    &&& command_parts(cmd) matches Some((method, params, id))
    &&& exists|result: Result<JsonView, ErrorView>| reply == #[trigger] reply_json(id, result)
}

/// A request that is served gets a reply of its own.
pub proof fn lemma_value_answered(
    s: Settings,
    conn: ConnectionView,
    cmd: JsonView,
    w: World,
    t: int,
)
    ensures
        value_course(s, conn, cmd, w, t).result matches Ok(reply) ==> answers(cmd, reply),
{
    reveal(value_course);
}

/// `all` are the replies in `before`, and then one to each of `cmds`, in order.
pub open spec fn are_replies(
    cmds: Seq<JsonView>,
    before: Seq<JsonView>,
    all: Seq<JsonView>,
) -> bool {
    &&& all.len() == before.len() + cmds.len()
    &&& forall|i: int| 0 <= i < before.len() ==> #[trigger] all[i] == before[i]
    &&& forall|i: int| 0 <= i < cmds.len() ==> answers(#[trigger] cmds[i], all[before.len() + i])
}

/// A batch that is served gets one line, with a reply to each of its requests in
/// order; one that is not served gets none.
pub proof fn lemma_batch_replied(
    s: Settings,
    conn: ConnectionView,
    cmds: Seq<JsonView>,
    replies: Seq<JsonView>,
    w: World,
    t: int,
)
    ensures
        (match batch_course(s, conn, cmds, replies, w, t).result {
            Ok(goes_on) => goes_on && exists|all: Seq<JsonView>| #[trigger]
                are_replies(cmds, replies, all) && sends(
                    batch_course(s, conn, cmds, replies, w, t).acts,
                ) == seq![line(JsonView::Array(all))],
            Err(_) => sends(batch_course(s, conn, cmds, replies, w, t).acts) == Seq::<
                Seq<char>,
            >::empty(),
        }),
    decreases cmds.len(),
{
    reveal(batch_course);
    if cmds.len() == 0 {
        assert(are_replies(cmds, replies, replies));
        lemma_one_send(line(JsonView::Array(replies)));
        assert(sent(conn, JsonView::Array(replies), t).acts =~= seq![
            Act::Send(line(JsonView::Array(replies))),
        ]);
    } else {
        let first = value_course(s, conn, cmds[0], w, t);
        lemma_value_sends_nothing(s, conn, cmds[0], w, t);
        lemma_value_answered(s, conn, cmds[0], w, t);
        match first.result {
            Err(_) => {},
            Ok(reply) => {
                let rest = cmds.drop_first();
                let more = replies.push(reply);
                lemma_batch_replied(s, first.conn, rest, more, w, first.end);
                let course = batch_course(s, first.conn, rest, more, w, first.end);
                lemma_sends_concat(first.acts, course.acts);
                assert(sends(first.acts) + sends(course.acts) =~= sends(course.acts));
                if course.result is Ok {
                    let all = choose|all: Seq<JsonView>| #[trigger]
                        are_replies(rest, more, all) && sends(course.acts) == seq![
                            line(JsonView::Array(all)),
                        ];
                    assert forall|i: int| 0 <= i < cmds.len() implies answers(
                        #[trigger] cmds[i],
                        all[replies.len() + i],
                    ) by {
                        if i == 0 {
                            assert(all[replies.len() as int] == more[replies.len() as int]);
                        } else {
                            assert(rest[i - 1] == cmds[i]);
                        }
                    }
                    assert forall|i: int| 0 <= i < replies.len() implies #[trigger] all[i]
                        == replies[i] by {
                        assert(all[i] == more[i]);
                    }
                    assert(are_replies(cmds, replies, all));
                }
            },
        }
    }
}

/// One text is sent.
proof fn lemma_one_send(text: Seq<char>)
    ensures
        sends(seq![Act::Send(text)]) == seq![text],
{
    let acts = seq![Act::Send(text)];
    assert(acts.drop_last() =~= Seq::empty());
    assert(sends(acts.drop_last()) =~= Seq::empty());
    assert(sends(acts) =~= seq![text]);
}

/// A line from the client gets one line in return: a reply to its request, or
/// the replies to its batch. Where it cannot be served, it gets none, and the
/// connection is closed.
pub proof fn lemma_request_replied(
    s: Settings,
    conn: ConnectionView,
    message: Message,
    w: World,
    t: int,
)
    requires
        message is Request,
    ensures
        (match message_course(s, conn, message, w, t).result {
            Err(_) => sends(message_course(s, conn, message, w, t).acts) == Seq::<
                Seq<char>,
            >::empty(),
            Ok(goes_on) => goes_on && (match json_of_text(message->Request_0@) {
                Ok(JsonView::Array(cmds)) => exists|all: Seq<JsonView>| #[trigger]
                    are_replies(cmds, Seq::empty(), all) && sends(
                        message_course(s, conn, message, w, t).acts,
                    ) == seq![line(JsonView::Array(all))],
                Ok(cmd) => exists|reply: JsonView| #[trigger]
                    answers(cmd, reply) && sends(message_course(s, conn, message, w, t).acts)
                        == seq![line(reply)],
                Err(_) => false,
            }),
        }),
{
    match json_of_text(message->Request_0@) {
        Ok(JsonView::Array(cmds)) => {
            lemma_batch_replied(s, conn, cmds, Seq::empty(), w, t);
        },
        Ok(cmd) => {
            let first = value_course(s, conn, cmd, w, t);
            lemma_value_sends_nothing(s, conn, cmd, w, t);
            lemma_value_answered(s, conn, cmd, w, t);
            if first.result is Ok {
                let reply = first.result->Ok_0;
                let last = seq![Act::Send(line(reply))];
                assert(sent(first.conn, reply, first.end).acts =~= last);
                lemma_sends_concat(first.acts, last);
                lemma_one_send(line(reply));
                assert(sends(first.acts) + sends(last) =~= seq![line(reply)]);
                assert(answers(cmd, reply));
            }
        },
        Err(_) => {},
    }
}

/// A batch with too many requests is refused before any of them is served.
pub proof fn lemma_long_batch_refused(
    s: Settings,
    conn: ConnectionView,
    message: Message,
    cmds: Seq<JsonView>,
    w: World,
    t: int,
)
    requires
        message is Request,
        json_of_text(message->Request_0@) == Ok::<JsonView, Seq<char>>(JsonView::Array(cmds)),
        cmds.len() > MAX_ARRAY_BATCH,
    ensures
        message_course(s, conn, message, w, t) == faulted::<bool>(
            conn,
            FaultView::TooManyElements(cmds.len() as int),
            t,
        ),
{
}

/// The scripts that an update checks, in order.
pub open spec fn checked_scripts(
    subscriptions: Seq<Subscription>,
    dirty: Set<FullHash>,
    tip_changed: bool,
) -> Seq<FullHash>
    decreases subscriptions.len(),
{
    if subscriptions.len() == 0 {
        Seq::empty()
    } else if touched(subscriptions[0], dirty, tip_changed) {
        seq![subscriptions[0].script_hash] + checked_scripts(
            subscriptions.drop_first(),
            dirty,
            tip_changed,
        )
    } else {
        checked_scripts(subscriptions.drop_first(), dirty, tip_changed)
    }
}

/// The histories that are asked for from script `i` on are those of the scripts
/// to check.
proof fn lemma_scan_checks(
    s: Settings,
    conn: ConnectionView,
    notes: Seq<JsonView>,
    i: int,
    dirty: Set<FullHash>,
    tip_changed: bool,
    w: World,
    t: int,
)
    requires
        0 <= i <= conn.subscriptions.len(),
    ensures
        scan_course(s, conn, notes, i, dirty, tip_changed, w, t).result is Ok ==> histories(
            scan_course(s, conn, notes, i, dirty, tip_changed, w, t).acts,
        ) == checked_scripts(conn.subscriptions.skip(i), dirty, tip_changed),
    decreases conn.subscriptions.len() - i,
{
    reveal(scan_course);
    let rest = conn.subscriptions.skip(i);
    if i < conn.subscriptions.len() {
        assert(rest[0] == conn.subscriptions[i]);
        assert(rest.drop_first() =~= conn.subscriptions.skip(i + 1));
        if !touched(conn.subscriptions[i], dirty, tip_changed) {
            lemma_scan_checks(s, conn, notes, i + 1, dirty, tip_changed, w, t);
        } else {
            let script_hash = conn.subscriptions[i].script_hash;
            let limit = (s.txs_limit + 1) as usize;
            let items = (w(t).history)(script_hash, limit);
            let asks = status_asks(items);
            let (conn1, notes1) = status_checked(conn, notes, i, status_at(items, w(t + 1)));
            let next = t + 1 + asks.len();
            lemma_scan_checks(s, conn1, notes1, i + 1, dirty, tip_changed, w, next);
            assert(conn1.subscriptions.skip(i + 1) =~= conn.subscriptions.skip(i + 1));
            let tail = scan_course(s, conn1, notes1, i + 1, dirty, tip_changed, w, next);
            let first = seq![Act::Ask(LookupView::History(script_hash, limit))];
            lemma_histories_concat(first, asking(asks) + tail.acts);
            lemma_histories_concat(asking(asks), tail.acts);
            assert(first.drop_last() =~= Seq::empty());
            assert(histories(first.drop_last()) =~= Seq::empty());
            assert(histories(first) =~= seq![script_hash]);
            lemma_no_histories(items);
            assert(histories(asking(asks)) + histories(tail.acts) =~= histories(tail.acts));
        }
    }
}

/// Questions about unconfirmed parents ask for no history.
proof fn lemma_no_histories(items: Seq<HistoryItem>)
    ensures
        histories(asking(status_asks(items))) == Seq::<FullHash>::empty(),
{
    let acts = asking(status_asks(items));
    if acts.len() > 0 {
        assert(acts.drop_last() =~= Seq::empty());
        assert(histories(acts.drop_last()) =~= Seq::empty());
    }
}

/// An update that succeeds asks for the history of each script to check, in
/// order, and of no other: of every script that is followed if there is a new
/// block, and else of those in `dirty`.
pub proof fn lemma_update_checks(
    s: Settings,
    conn: ConnectionView,
    dirty: Set<FullHash>,
    tip_changed: bool,
    w: World,
    t: int,
)
    ensures
        update_course(s, conn, dirty, tip_changed, w, t).result is Ok ==> histories(
            update_course(s, conn, dirty, tip_changed, w, t).acts,
        ) == checked_scripts(conn.subscriptions, dirty, tip_changed),
{
    let subscriptions = conn.subscriptions;
    assert(subscriptions.skip(0) =~= subscriptions);
    if !tip_changed && dirty == Set::<FullHash>::empty() {
        lemma_nothing_checked(subscriptions);
    }
    match conn.last_header_entry {
        None => {
            lemma_scan_checks(s, conn, Seq::empty(), 0, dirty, tip_changed, w, t);
        },
        Some(last) => {
            let entry = w(t).best_header;
            let conn1 = conn.changed(ChangeView::Follow(entry));
            let notes = if entry == last {
                Seq::empty()
            } else {
                seq![header_note(entry)]
            };
            lemma_scan_checks(s, conn1, notes, 0, dirty, tip_changed, w, t + 1);
            let first = seq![Act::Ask(LookupView::BestHeader)];
            let rest = header_checked(s, conn, last, entry, dirty, tip_changed, w, t + 1);
            lemma_histories_concat(first, rest.acts);
            assert(first.drop_last() =~= Seq::empty());
            assert(histories(first.drop_last()) =~= Seq::empty());
            assert(histories(first) =~= Seq::empty());
            assert(histories(first) + histories(rest.acts) =~= histories(rest.acts));
        },
    }
}

/// Where nothing changed, no script is checked.
proof fn lemma_nothing_checked(subscriptions: Seq<Subscription>)
    ensures
        checked_scripts(subscriptions, Set::empty(), false) == Seq::<FullHash>::empty(),
    decreases subscriptions.len(),
{
    if subscriptions.len() > 0 {
        lemma_nothing_checked(subscriptions.drop_first());
    }
}

/// The index stays as it is.
pub open spec fn steady(w: World, ix: Index) -> bool {
    forall|t: int| #[trigger] w(t) == ix
}

/// The history of a script, with one transaction more than is served.
pub open spec fn history_of(s: Settings, ix: Index, script_hash: FullHash) -> Seq<HistoryItem> {
    (ix.history)(script_hash, (s.txs_limit + 1) as usize)
}

/// The hash of the history of a script.
pub open spec fn current_status(s: Settings, ix: Index, script_hash: FullHash) -> Option<FullHash> {
    status_at(history_of(s, ix, script_hash), ix)
}

/// The scripts to check from script `i` on have no more history than is served.
pub open spec fn within_limit(
    s: Settings,
    ix: Index,
    subscriptions: Seq<Subscription>,
    i: int,
    dirty: Set<FullHash>,
    tip_changed: bool,
) -> bool {
    forall|j: int|
        i <= j < subscriptions.len() && touched(
            #[trigger] subscriptions[j],
            dirty,
            tip_changed,
        ) ==> history_of(s, ix, subscriptions[j].script_hash).len() <= s.txs_limit
}

/// The subscriptions once the scripts from script `i` on were checked.
pub open spec fn refreshed(
    s: Settings,
    ix: Index,
    subscriptions: Seq<Subscription>,
    i: int,
    dirty: Set<FullHash>,
    tip_changed: bool,
) -> Seq<Subscription> {
    Seq::new(
        subscriptions.len(),
        |j: int|
            if j >= i && touched(subscriptions[j], dirty, tip_changed) {
                Subscription {
                    script_hash: subscriptions[j].script_hash,
                    status_hash: current_status(s, ix, subscriptions[j].script_hash),
                }
            } else {
                subscriptions[j]
            },
    )
}

/// The notes for the scripts to check whose history changed, in order.
pub open spec fn status_notes(
    s: Settings,
    ix: Index,
    subscriptions: Seq<Subscription>,
    dirty: Set<FullHash>,
    tip_changed: bool,
) -> Seq<JsonView>
    decreases subscriptions.len(),
{
    if subscriptions.len() == 0 {
        Seq::empty()
    } else {
        let first = subscriptions[0];
        let status_hash = current_status(s, ix, first.script_hash);
        let rest = status_notes(s, ix, subscriptions.drop_first(), dirty, tip_changed);
        if touched(first, dirty, tip_changed) && status_hash != first.status_hash {
            seq![status_note(first.script_hash, status_hash)] + rest
        } else {
            rest
        }
    }
}

/// What the check of the scripts from script `i` on comes to.
proof fn lemma_scan_steady(
    s: Settings,
    conn: ConnectionView,
    notes: Seq<JsonView>,
    i: int,
    dirty: Set<FullHash>,
    tip_changed: bool,
    ix: Index,
    w: World,
    t: int,
)
    requires
        steady(w, ix),
        0 <= i <= conn.subscriptions.len(),
    ensures
        scan_course(s, conn, notes, i, dirty, tip_changed, w, t).result is Ok == within_limit(
            s,
            ix,
            conn.subscriptions,
            i,
            dirty,
            tip_changed,
        ),
        scan_course(s, conn, notes, i, dirty, tip_changed, w, t).result matches Ok(all) ==> {
            &&& all == notes + status_notes(
                s,
                ix,
                conn.subscriptions.skip(i),
                dirty,
                tip_changed,
            )
            &&& scan_course(s, conn, notes, i, dirty, tip_changed, w, t).conn == (ConnectionView {
                subscriptions: refreshed(s, ix, conn.subscriptions, i, dirty, tip_changed),
                ..conn
            })
        },
    decreases conn.subscriptions.len() - i,
{
    reveal(scan_course);
    let subscriptions = conn.subscriptions;
    let course = scan_course(s, conn, notes, i, dirty, tip_changed, w, t);
    if i >= subscriptions.len() {
        assert(refreshed(s, ix, subscriptions, i, dirty, tip_changed) =~= subscriptions);
        assert(notes + status_notes(s, ix, subscriptions.skip(i), dirty, tip_changed) =~= notes);
    } else {
        let entry = subscriptions[i];
        assert(subscriptions.skip(i)[0] == entry);
        assert(subscriptions.skip(i).drop_first() =~= subscriptions.skip(i + 1));
        if !touched(entry, dirty, tip_changed) {
            lemma_scan_steady(s, conn, notes, i + 1, dirty, tip_changed, ix, w, t);
            assert(refreshed(s, ix, subscriptions, i, dirty, tip_changed) =~= refreshed(
                s,
                ix,
                subscriptions,
                i + 1,
                dirty,
                tip_changed,
            ));
        } else {
            assert(w(t) == ix && w(t + 1) == ix);
            let items = history_of(s, ix, entry.script_hash);
            let status_hash = current_status(s, ix, entry.script_hash);
            let (conn1, notes1) = status_checked(conn, notes, i, status_hash);
            let next = t + 1 + status_asks(items).len();
            if items.len() <= s.txs_limit {
                lemma_scan_steady(s, conn1, notes1, i + 1, dirty, tip_changed, ix, w, next);
                let after = conn1.subscriptions;
                assert(after.skip(i + 1) =~= subscriptions.skip(i + 1));
                assert(refreshed(s, ix, after, i + 1, dirty, tip_changed) =~= refreshed(
                    s,
                    ix,
                    subscriptions,
                    i,
                    dirty,
                    tip_changed,
                ));
                assert(within_limit(s, ix, after, i + 1, dirty, tip_changed) == within_limit(
                    s,
                    ix,
                    subscriptions,
                    i,
                    dirty,
                    tip_changed,
                )) by {
                    assert forall|j: int| i + 1 <= j < after.len() implies after[j]
                        == #[trigger] subscriptions[j] by {}
                    if within_limit(s, ix, after, i + 1, dirty, tip_changed) {
                        assert forall|j: int|
                            i <= j < subscriptions.len() && touched(
                                #[trigger] subscriptions[j],
                                dirty,
                                tip_changed,
                            ) implies history_of(s, ix, subscriptions[j].script_hash).len()
                            <= s.txs_limit by {
                            if j > i {
                                assert(after[j] == subscriptions[j]);
                            }
                        }
                    }
                }
                if course.result is Ok {
                    let rest = status_notes(
                        s,
                        ix,
                        subscriptions.skip(i + 1),
                        dirty,
                        tip_changed,
                    );
                    assert(notes1 + rest =~= notes + status_notes(
                        s,
                        ix,
                        subscriptions.skip(i),
                        dirty,
                        tip_changed,
                    ));
                }
            }
        }
    }
}

/// The note on the best header, if the client was last told another one.
pub open spec fn header_notes(conn: ConnectionView, ix: Index) -> Seq<JsonView> {
    match conn.last_header_entry {
        Some(last) if last != ix.best_header => seq![header_note(ix.best_header)],
        _ => Seq::empty(),
    }
}

/// What the client follows after an update.
pub open spec fn updated(
    s: Settings,
    ix: Index,
    conn: ConnectionView,
    dirty: Set<FullHash>,
    tip_changed: bool,
) -> ConnectionView {
    ConnectionView {
        last_header_entry: match conn.last_header_entry {
            Some(_) => Some(ix.best_header),
            None => None,
        },
        subscriptions: refreshed(s, ix, conn.subscriptions, 0, dirty, tip_changed),
    }
}

/// While the index stays as it is, an update succeeds unless a script to check
/// has too much history. The client is then told the best header, if it follows
/// it and was last told another one, and the hash of each history to check that
/// is another one than it was last told, and nothing else. It is then up to date
/// on all that was checked.
pub proof fn lemma_update_result(
    s: Settings,
    conn: ConnectionView,
    dirty: Set<FullHash>,
    tip_changed: bool,
    ix: Index,
    w: World,
    t: int,
)
    requires
        steady(w, ix),
    ensures
        update_course(s, conn, dirty, tip_changed, w, t).result is Ok == within_limit(
            s,
            ix,
            conn.subscriptions,
            0,
            dirty,
            tip_changed,
        ),
        update_course(s, conn, dirty, tip_changed, w, t).result matches Ok(notes) ==> {
            &&& notes == header_notes(conn, ix) + status_notes(
                s,
                ix,
                conn.subscriptions,
                dirty,
                tip_changed,
            )
            &&& update_course(s, conn, dirty, tip_changed, w, t).conn == updated(
                s,
                ix,
                conn,
                dirty,
                tip_changed,
            )
        },
{
    let subscriptions = conn.subscriptions;
    assert(subscriptions.skip(0) =~= subscriptions);
    let (conn1, notes, next) = match conn.last_header_entry {
        None => (conn, Seq::<JsonView>::empty(), t),
        Some(last) => {
            assert(w(t) == ix);
            (conn.changed(ChangeView::Follow(ix.best_header)), header_notes(conn, ix), t + 1)
        },
    };
    if !tip_changed && dirty == Set::<FullHash>::empty() {
        lemma_no_notes(s, ix, subscriptions);
        assert(refreshed(s, ix, subscriptions, 0, dirty, tip_changed) =~= subscriptions);
        assert(notes + Seq::<JsonView>::empty() =~= notes);
    } else {
        lemma_scan_steady(s, conn1, notes, 0, dirty, tip_changed, ix, w, next);
    }
}

/// Where nothing changed, there are no notes on scripts.
proof fn lemma_no_notes(s: Settings, ix: Index, subscriptions: Seq<Subscription>)
    ensures
        status_notes(s, ix, subscriptions, Set::empty(), false) == Seq::<JsonView>::empty(),
    decreases subscriptions.len(),
{
    if subscriptions.len() > 0 {
        lemma_no_notes(s, ix, subscriptions.drop_first());
    }
}

/// A client that is up to date on what is checked gets no notes.
proof fn lemma_up_to_date(
    s: Settings,
    ix: Index,
    subscriptions: Seq<Subscription>,
    dirty: Set<FullHash>,
    tip_changed: bool,
)
    requires
        forall|j: int|
            0 <= j < subscriptions.len() && touched(
                #[trigger] subscriptions[j],
                dirty,
                tip_changed,
            ) ==> subscriptions[j].status_hash == current_status(
                s,
                ix,
                subscriptions[j].script_hash,
            ),
    ensures
        status_notes(s, ix, subscriptions, dirty, tip_changed) == Seq::<JsonView>::empty(),
    decreases subscriptions.len(),
{
    if subscriptions.len() > 0 {
        let rest = subscriptions.drop_first();
        assert forall|j: int|
            0 <= j < rest.len() && touched(
                #[trigger] rest[j],
                dirty,
                tip_changed,
            ) implies rest[j].status_hash == current_status(s, ix, rest[j].script_hash) by {
            assert(rest[j] == subscriptions[j + 1]);
        }
        lemma_up_to_date(s, ix, rest, dirty, tip_changed);
    }
}

/// While the index stays as it is, the client is told a change once: the same
/// update a second time has nothing to tell, and changes nothing.
pub proof fn lemma_update_told_once(
    s: Settings,
    conn: ConnectionView,
    dirty: Set<FullHash>,
    tip_changed: bool,
    ix: Index,
    w: World,
    t: int,
    t2: int,
)
    requires
        steady(w, ix),
        update_course(s, conn, dirty, tip_changed, w, t).result is Ok,
    ensures
        update_course(
            s,
            update_course(s, conn, dirty, tip_changed, w, t).conn,
            dirty,
            tip_changed,
            w,
            t2,
        ).result == Ok::<Seq<JsonView>, FaultView>(Seq::empty()),
        update_course(
            s,
            update_course(s, conn, dirty, tip_changed, w, t).conn,
            dirty,
            tip_changed,
            w,
            t2,
        ).conn == update_course(s, conn, dirty, tip_changed, w, t).conn,
{
    lemma_update_result(s, conn, dirty, tip_changed, ix, w, t);
    let after = updated(s, ix, conn, dirty, tip_changed);
    let (before, fresh) = (conn.subscriptions, after.subscriptions);
    assert forall|j: int| 0 <= j < fresh.len() implies (#[trigger] fresh[j]).script_hash
        == before[j].script_hash by {}
    assert(within_limit(s, ix, fresh, 0, dirty, tip_changed)) by {
        assert forall|j: int|
            0 <= j < fresh.len() && touched(
                #[trigger] fresh[j],
                dirty,
                tip_changed,
            ) implies history_of(s, ix, fresh[j].script_hash).len() <= s.txs_limit by {
            assert(touched(before[j], dirty, tip_changed));
        }
    }
    lemma_update_result(s, after, dirty, tip_changed, ix, w, t2);
    assert forall|j: int|
        0 <= j < fresh.len() && touched(
            #[trigger] fresh[j],
            dirty,
            tip_changed,
        ) implies fresh[j].status_hash == current_status(s, ix, fresh[j].script_hash) by {
        assert(touched(before[j], dirty, tip_changed));
    }
    lemma_up_to_date(s, ix, fresh, dirty, tip_changed);
    assert(refreshed(s, ix, fresh, 0, dirty, tip_changed) =~= fresh);
    assert(header_notes(after, ix) + status_notes(s, ix, fresh, dirty, tip_changed)
        =~= Seq::<JsonView>::empty());
}

/// While the index stays as it is, a client that follows a script is told the
/// hash that an update would compare with.
pub proof fn lemma_subscribe_up_to_date(
    s: Settings,
    params: Seq<JsonView>,
    ix: Index,
    w: World,
    t: int,
)
    requires
        steady(w, ix),
    ensures
        scripthash_subscribe_run(s, params, w, t).outcome.reply matches Ok(status) ==> (
        scripthash_subscribe_run(s, params, w, t).outcome.change matches ChangeView::Subscribe(
            script_hash,
            status_hash,
        ) && status_hash == current_status(s, ix, script_hash) && status == status_json(
            status_hash,
        )),
{
    assert(w(t) == ix && w(t + 1) == ix);
}

/// A script has a hash of its history exactly if it has a history.
pub proof fn lemma_status_of_history(items: Seq<HistoryItem>, flags: Seq<bool>)
    ensures
        (status_json(status_hash(items, flags)) is Null) == (items.len() == 0),
{
}

/// A connection that waits for an answer goes on with the question for it.
pub proof fn lemma_waits_for_question(session: Session, w: World, t: int)
    requires
        session.wf(),
        !(session.task is Idle),
    ensures
        session.remaining(w, t).acts.len() > 0,
        session.remaining(w, t).acts[0] == Act::Ask(session.question()),
{
    reveal(Session::remaining);
    reveal(scan_course);
}

/// A step and the connection after it, one for each answer of the index that
/// was given. An answer leads from one step to the next.
pub open spec fn steps_follow(steps: Seq<(Step, Session)>, w: World, t: int) -> bool {
    forall|k: int|
        0 <= k < steps.len() - 1 ==> {
            &&& (#[trigger] steps[k]).0.next is Ask
            &&& steps[k].1.remaining(w, t + k) == preceded(
                seq![Act::Ask(steps[k].1.question())],
                steps[k + 1].0.course(steps[k + 1].1, w, t + k + 1),
            )
        }
}

/// What was done in these steps.
pub open spec fn performed(steps: Seq<(Step, Session)>) -> Seq<Act>
    decreases steps.len(),
{
    if steps.len() == 0 {
        Seq::empty()
    } else {
        let (step, after) = steps.last();
        performed(steps.drop_last()) + effect_acts(step.effects@) + (if step.next is Ask {
            seq![Act::Ask(after.question())]
        } else {
            Seq::empty()
        })
    }
}

/// What is done in the first steps, and what is done from the next one on.
proof fn lemma_first_steps(steps: Seq<(Step, Session)>, m: int, w: World, t: int)
    requires
        steps_follow(steps, w, t),
        0 <= m < steps.len(),
    ensures
        steps[0].0.course(steps[0].1, w, t) == preceded(
            performed(steps.take(m)),
            steps[m].0.course(steps[m].1, w, t + m),
        ),
    decreases m,
{
    if m == 0 {
        assert(steps[0].0.course(steps[0].1, w, t) =~= preceded(
            performed(steps.take(0)),
            steps[0].0.course(steps[0].1, w, t),
        ));
    } else {
        let (step, after) = steps[m - 1];
        lemma_first_steps(steps, m - 1, w, t);
        assert(steps.take(m).drop_last() =~= steps.take(m - 1));
        assert(steps.take(m).last() == steps[m - 1]);
        let before = performed(steps.take(m - 1));
        let effects = effect_acts(step.effects@);
        let ask = seq![Act::Ask(after.question())];
        let rest = steps[m].0.course(steps[m].1, w, t + m);
        assert(t + (m - 1) + 1 == t + m);
        assert(step.next is Ask);
        assert(preceded(before, preceded(effects, preceded(ask, rest))) =~= preceded(
            before + effects + ask,
            rest,
        ));
    }
}

/// However long it takes: once a connection that started on a message waits for
/// the next one, or ends, it has done with the message what it should, given
/// what the index answered.
pub proof fn lemma_message_done(
    s: Settings,
    conn: ConnectionView,
    message: Message,
    steps: Seq<(Step, Session)>,
    w: World,
    t: int,
)
    requires
        steps.len() > 0,
        steps[0].0.course(steps[0].1, w, t) == message_course(s, conn, message, w, t),
        steps_follow(steps, w, t),
        !(steps.last().0.next is Ask),
    ensures
        message_course(s, conn, message, w, t).acts == performed(steps),
        message_course(s, conn, message, w, t).conn == steps.last().1.conn@,
        message_course(s, conn, message, w, t).result == (match steps.last().0.next {
            Next::Close(fault) => Err::<bool, FaultView>(fault@),
            Next::Stop => Ok(false),
            _ => Ok(true),
        }),
{
    let m = steps.len() - 1;
    lemma_first_steps(steps, m, w, t);
    assert(steps.drop_last() =~= steps.take(m));
    assert(steps[m] == steps.last());
    assert(message_course(s, conn, message, w, t).acts =~= performed(steps));
}

/// A history is listed whole: one entry for each transaction, in order, those in
/// a block at its height.
pub proof fn lemma_history_whole(
    items: Seq<HistoryItem>,
    fees: Seq<Option<u64>>,
    flags: Seq<bool>,
    i: int,
)
    requires
        0 <= i < items.len(),
        fees.len() == mempool_txids(items).len(),
        flags.len() == mempool_txids(items).len(),
    ensures
        history_entries(items, fees, flags).len() == items.len(),
        exists|flag: bool, fee: Option<u64>|
            history_entries(items, fees, flags)[i] == #[trigger] history_entry(
                items[i].txid,
                electrum_height(items[i].block, flag),
                fee,
            ) && (items[i].block is Some ==> fee is None),
    decreases items.len(),
{
    let last = items.last();
    let front = items.drop_last();
    let (fees1, flags1) = if last.block is None {
        (fees.drop_last(), flags.drop_last())
    } else {
        (fees, flags)
    };
    let before = history_entries(front, fees1, flags1);
    if i < items.len() - 1 {
        lemma_history_whole(front, fees1, flags1, i);
        let (flag, fee) = choose|flag: bool, fee: Option<u64>|
            before[i] == #[trigger] history_entry(
                front[i].txid,
                electrum_height(front[i].block, flag),
                fee,
            ) && (front[i].block is Some ==> fee is None);
        assert(history_entries(items, fees, flags)[i] == before[i]);
        assert(front[i] == items[i]);
        assert(history_entries(items, fees, flags)[i] == history_entry(
            items[i].txid,
            electrum_height(items[i].block, flag),
            fee,
        ));
    } else {
        if front.len() > 0 {
            lemma_history_whole(front, fees1, flags1, 0);
        }
        assert(history_entries(items, fees, flags)[i] == (if last.block is None {
            history_entry(last.txid, electrum_height(last.block, flags.last()), fees.last())
        } else {
            history_entry(last.txid, electrum_height(last.block, false), None)
        }));
    }
}

/// A history that is longer than the limit is not listed at all.
pub proof fn lemma_long_history_refused(
    s: Settings,
    params: Seq<JsonView>,
    w: World,
    t: int,
)
    ensures
        hash_param_or(param(params, 0), "bad script_hash"@) matches Ok(script_hash) ==> (
        history_of(s, w(t), script_hash).len() > s.txs_limit ==> {
            &&& scripthash_get_history_run(s, params, w, t).outcome.reply == Err::<
                JsonView,
                ErrorView,
            >(too_popular())
            &&& scripthash_subscribe_run(s, params, w, t).outcome.reply == Err::<
                JsonView,
                ErrorView,
            >(too_popular())
        }),
{
}

/// Where parameters are to be hidden, the log does not show them.
pub proof fn lemma_hidden_params(s: Settings, cmd: JsonView, reply: JsonView, duration: u64)
    requires
        s.rpc_logging.hide_params,
    ensures
        response_event(s, cmd, reply, duration).field("params"@) == Some(JsonView::Null),
{
    reveal_strlit("event");
    reveal_strlit("method");
    reveal_strlit("params");
    assert("event"@[0] == 'e' && "method"@[0] == 'm' && "params"@[0] == 'p');
    reveal_with_fuel(field_in, 4);
}

} // verus!
