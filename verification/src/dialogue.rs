//! What a connection does with each message that it is told.
use crate::chain::HeaderEntryView;
use crate::commands::{
    command_run, follows, hash_json, header_entry_json, status_asks, status_at, ChangeView,
    OutcomeView, Run, Subscription,
};
use crate::connection::ConnectionView;
use crate::hash::{sha256, FullHash};
use crate::history::{status_hash, status_json, too_popular};
use crate::json::{json_of_text, object, text_of_json, JsonView};
use crate::messages::Message;
use crate::params::ErrorView;
use crate::query::{LookupView, World};
use crate::settings::{Settings, MAX_ARRAY_BATCH};
use crate::text::hex;
use vstd::prelude::*;
use vstd::utf8::encode_utf8;

verus! {

/// Something that a connection does.
pub enum Act {
    /// Asks the index.
    Ask(LookupView),
    /// Counts a client that is connected from now on.
    Connected,
    /// Counts a client off that is connected no longer.
    Disconnected,
    /// Starts to time something, under a label.
    StartTimer(Seq<char>),
    /// Takes down how long what was timed has taken.
    StopTimer,
    /// Counts a script that is followed from now on.
    Subscribed,
    /// Counts a script off that is followed no longer.
    Unsubscribed,
    /// Counts so many scripts off that are followed no longer.
    Forgotten(int),
    /// Tells itself that of these scripts the mempool state changed, and whether
    /// there is a new block.
    Update(Set<FullHash>, bool),
    /// Warns that a request failed: its id, method and parameters, and why.
    Failed(JsonView, Seq<char>, Seq<JsonView>, ErrorView),
    /// Writes a line to the log of requests.
    Log(Seq<char>),
    /// Sends some text to the client.
    Send(Seq<char>),
}

/// Why a connection is closed.
pub enum FaultView {
    /// A line is not JSON, for this cause.
    InvalidJson(Seq<char>),
    /// A batch has too many requests.
    TooManyElements(int),
    /// The method of a request is not known.
    UnknownMethod(Seq<char>, Seq<JsonView>),
    /// A request lacks a method or an id, or its parameters are not an array.
    InvalidCommand(JsonView),
    /// The subscriptions cannot be checked.
    UpdateFailed(ErrorView),
}

/// What a connection does, what its client then follows, and what comes of it.
/// `end` is the number of the next question.
#[verifier::ext_equal]
pub struct Course<T> {
    pub acts: Seq<Act>,
    pub conn: ConnectionView,
    pub result: Result<T, FaultView>,
    pub end: int,
}

/// Does something first.
pub open spec fn preceded<T>(acts: Seq<Act>, rest: Course<T>) -> Course<T> {
    Course { acts: acts + rest.acts, ..rest }
}

/// Does nothing, and has a result.
pub open spec fn finished<T>(conn: ConnectionView, result: T, t: int) -> Course<T> {
    Course { acts: Seq::empty(), conn, result: Ok(result), end: t }
}

/// Does nothing, and closes the connection.
pub open spec fn faulted<T>(conn: ConnectionView, fault: FaultView, t: int) -> Course<T> {
    Course { acts: Seq::empty(), conn, result: Err(fault), end: t }
}

/// The method, the parameters and the id of a request. Parameters may be left
/// out where there are none.
pub open spec fn command_parts(cmd: JsonView) -> Option<(Seq<char>, Seq<JsonView>, JsonView)> {
    let params = match cmd.field("params"@) {
        Some(params) => params,
        None => JsonView::Array(Seq::empty()),
    };
    match (cmd.field("method"@), params, cmd.field("id"@)) {
        (Some(JsonView::Text(method)), JsonView::Array(params), Some(id)) => Some(
            (method, params, id),
        ),
        _ => None,
    }
}

/// The reply to a request.
pub open spec fn reply_json(id: JsonView, result: Result<JsonView, ErrorView>) -> JsonView {
    let reply = object().with("jsonrpc"@, JsonView::Text("2.0"@)).with("id"@, id);
    match result {
        Ok(result) => reply.with("result"@, result),
        Err(e) => reply.with("error"@, JsonView::Text(e.message)),
    }
}

/// A value as it is sent.
pub open spec fn line(json: JsonView) -> Seq<char> {
    text_of_json(json) + "\n"@
}

/// The address of a client as it is logged.
pub open spec fn logged_ip(s: Settings) -> Seq<char> {
    if s.rpc_logging.anonymize_ip {
        hex(sha256(encode_utf8(s.salt@ + s.ip@)))
    } else {
        s.ip@
    }
}

/// An event as it is logged, with the client that it is about.
pub open spec fn event_line(s: Settings, event: JsonView) -> Seq<char> {
    text_of_json(
        event.with(
            "source"@,
            object().with("ip"@, JsonView::Text(logged_ip(s))).with(
                "port"@,
                JsonView::Unsigned(s.port as u64),
            ),
        ),
    )
}

/// The number of bytes that encode a value.
pub open spec fn encoded_len(json: JsonView) -> u64 {
    encode_utf8(text_of_json(json)).len() as u64
}

/// The time from one to another.
pub open spec fn elapsed(from: u64, to: u64) -> u64 {
    if from <= to {
        (to - from) as u64
    } else {
        0
    }
}

/// The event that a request was replied to.
pub open spec fn response_event(
    s: Settings,
    cmd: JsonView,
    reply: JsonView,
    duration: u64,
) -> JsonView {
    let (method, params, id) = command_parts(cmd)->0;
    object()
        .with("event"@, JsonView::Text("rpc_response"@))
        .with("method"@, JsonView::Text(method))
        .with(
            "params"@,
            if s.rpc_logging.hide_params {
                JsonView::Null
            } else {
                JsonView::Array(params)
            },
        )
        .with("request_size"@, JsonView::Unsigned(encoded_len(cmd)))
        .with("response_size"@, JsonView::Unsigned(encoded_len(reply)))
        .with("duration_micros"@, JsonView::Unsigned(duration))
        .with("id"@, id)
}

/// Asks these questions.
pub open spec fn asking(lookups: Seq<LookupView>) -> Seq<Act> {
    lookups.map_values(|lookup: LookupView| Act::Ask(lookup))
}

/// What a change to what a client follows makes the connection do.
pub open spec fn change_acts(subscriptions: Seq<Subscription>, change: ChangeView) -> Seq<Act> {
    match change {
        ChangeView::Rescan => seq![Act::Update(Set::empty(), true)],
        ChangeView::Subscribe(script_hash, _) if !follows(subscriptions, script_hash) => seq![
            Act::Subscribed,
        ],
        ChangeView::Unsubscribe(script_hash) if follows(subscriptions, script_hash) => seq![
            Act::Unsubscribed,
        ],
        _ => Seq::empty(),
    }
}

/// What is done when the command of a request has come to its end.
pub open spec fn outcome_acts(
    subscriptions: Seq<Subscription>,
    cmd: JsonView,
    outcome: OutcomeView,
) -> Seq<Act> {
    let (method, params, id) = command_parts(cmd)->0;
    change_acts(subscriptions, outcome.change) + seq![Act::StopTimer] + (match outcome.reply {
        Ok(_) => Seq::empty(),
        Err(e) => seq![Act::Failed(id, method, params, e)],
    })
}

/// Times the command of a request, under the name of its method.
pub open spec fn timed<T>(cmd: JsonView, rest: Course<T>) -> Course<T> {
    preceded(seq![Act::StartTimer((command_parts(cmd)->0).0)], rest)
}

/// What is done for a request before it turns out that it cannot be served.
pub open spec fn attempted(fault: FaultView) -> Seq<Act> {
    match fault {
        FaultView::UnknownMethod(method, _) => seq![Act::StartTimer(method)],
        _ => Seq::empty(),
    }
}

/// Serves a request that does `run`. Where its start was taken down, the reply
/// is logged.
pub open spec fn served(
    s: Settings,
    conn: ConnectionView,
    cmd: JsonView,
    started: Option<u64>,
    run: Run,
    w: World,
    t: int,
) -> Course<JsonView> {
    let reply = reply_json((command_parts(cmd)->0).2, run.outcome.reply);
    preceded(
        asking(run.asks) + outcome_acts(conn.subscriptions, cmd, run.outcome),
        logged(
            s,
            conn.changed(run.outcome.change),
            cmd,
            started,
            reply,
            w,
            t + run.asks.len(),
        ),
    )
}

/// Logs a reply, where the start of the request was taken down.
pub open spec fn logged(
    s: Settings,
    conn: ConnectionView,
    cmd: JsonView,
    started: Option<u64>,
    reply: JsonView,
    w: World,
    t: int,
) -> Course<JsonView> {
    match started {
        None => finished(conn, reply, t),
        Some(from) => preceded(
            seq![Act::Ask(LookupView::Now)],
            preceded(
                seq![
                    Act::Log(
                        event_line(s, response_event(s, cmd, reply, elapsed(from, w(t).now))),
                    ),
                ],
                finished(conn, reply, t + 1),
            ),
        ),
    }
}

/// Serves a request.
#[verifier::opaque]
pub open spec fn value_course(
    s: Settings,
    conn: ConnectionView,
    cmd: JsonView,
    w: World,
    t: int,
) -> Course<JsonView> {
    match command_parts(cmd) {
        None => faulted(conn, FaultView::InvalidCommand(cmd), t),
        Some((method, params, id)) => {
            let first = if s.rpc_logging.enabled {
                t + 1
            } else {
                t
            };
            match command_run(s, conn.subscriptions, method, params, w, first) {
                None => timed(cmd, faulted(conn, FaultView::UnknownMethod(method, params), t)),
                Some(run) => if s.rpc_logging.enabled {
                    preceded(
                        seq![Act::Ask(LookupView::Now)],
                        timed(cmd, served(s, conn, cmd, Some(w(t).now), run, w, first)),
                    )
                } else {
                    timed(cmd, served(s, conn, cmd, None, run, w, first))
                },
            }
        },
    }
}

/// Serves the requests of a batch one after the other, and sends the replies
/// together.
#[verifier::opaque]
pub open spec fn batch_course(
    s: Settings,
    conn: ConnectionView,
    cmds: Seq<JsonView>,
    replies: Seq<JsonView>,
    w: World,
    t: int,
) -> Course<bool>
    decreases cmds.len(),
{
    if cmds.len() == 0 {
        sent(conn, JsonView::Array(replies), t)
    } else {
        let first = value_course(s, conn, cmds[0], w, t);
        match first.result {
            Err(fault) => Course {
                acts: first.acts,
                conn: first.conn,
                result: Err(fault),
                end: first.end,
            },
            Ok(reply) => preceded(
                first.acts,
                batch_course(
                    s,
                    first.conn,
                    cmds.drop_first(),
                    replies.push(reply),
                    w,
                    first.end,
                ),
            ),
        }
    }
}

/// Sends a value to the client.
pub open spec fn sent(conn: ConnectionView, json: JsonView, t: int) -> Course<bool> {
    preceded(seq![Act::Send(line(json))], finished(conn, true, t))
}

/// What follows when a request is served: the reply is sent, or it waits for the
/// rest of the batch.
pub open spec fn continued(
    s: Settings,
    batch: Option<(Seq<JsonView>, Seq<JsonView>)>,
    first: Course<JsonView>,
    w: World,
) -> Course<bool> {
    match first.result {
        Err(fault) => Course {
            acts: first.acts,
            conn: first.conn,
            result: Err(fault),
            end: first.end,
        },
        Ok(reply) => preceded(
            first.acts,
            reply_course(s, first.conn, batch, reply, w, first.end),
        ),
    }
}

/// Sends a reply, or goes on with the rest of the batch.
pub open spec fn reply_course(
    s: Settings,
    conn: ConnectionView,
    batch: Option<(Seq<JsonView>, Seq<JsonView>)>,
    reply: JsonView,
    w: World,
    t: int,
) -> Course<bool> {
    match batch {
        None => sent(conn, reply, t),
        Some((cmds, replies)) => batch_course(s, conn, cmds, replies.push(reply), w, t),
    }
}

/// The note that the best header changed.
pub open spec fn header_note(entry: HeaderEntryView) -> JsonView {
    note_json("blockchain.headers.subscribe"@, seq![header_entry_json(entry)])
}

/// The note that the history of a script changed.
pub open spec fn status_note(script_hash: FullHash, status_hash: Option<FullHash>) -> JsonView {
    note_json(
        "blockchain.scripthash.subscribe"@,
        seq![hash_json(script_hash), status_json(status_hash)],
    )
}

/// Something that the client is told unasked.
pub open spec fn note_json(method: Seq<char>, params: Seq<JsonView>) -> JsonView {
    object().with("jsonrpc"@, JsonView::Text("2.0"@)).with("method"@, JsonView::Text(method)).with(
        "params"@,
        JsonView::Array(params),
    )
}

/// Checks what the client follows: the best header, and then the scripts in
/// `dirty`, or all of them if there is a new block. The client is told what
/// changed.
pub open spec fn update_course(
    s: Settings,
    conn: ConnectionView,
    dirty: Set<FullHash>,
    tip_changed: bool,
    w: World,
    t: int,
) -> Course<Seq<JsonView>> {
    match conn.last_header_entry {
        None => scripts_course(s, conn, Seq::empty(), dirty, tip_changed, w, t),
        Some(last) => preceded(
            seq![Act::Ask(LookupView::BestHeader)],
            header_checked(s, conn, last, w(t).best_header, dirty, tip_changed, w, t + 1),
        ),
    }
}

/// Goes on when the best header is known.
pub open spec fn header_checked(
    s: Settings,
    conn: ConnectionView,
    last: HeaderEntryView,
    entry: HeaderEntryView,
    dirty: Set<FullHash>,
    tip_changed: bool,
    w: World,
    t: int,
) -> Course<Seq<JsonView>> {
    let notes = if entry == last {
        Seq::empty()
    } else {
        seq![header_note(entry)]
    };
    scripts_course(s, conn.changed(ChangeView::Follow(entry)), notes, dirty, tip_changed, w, t)
}

/// Checks the scripts, unless nothing changed.
pub open spec fn scripts_course(
    s: Settings,
    conn: ConnectionView,
    notes: Seq<JsonView>,
    dirty: Set<FullHash>,
    tip_changed: bool,
    w: World,
    t: int,
) -> Course<Seq<JsonView>> {
    if !tip_changed && dirty == Set::<FullHash>::empty() {
        finished(conn, notes, t)
    } else {
        scan_course(s, conn, notes, 0, dirty, tip_changed, w, t)
    }
}

/// What the client follows, and the notes for it, when the hash of the history of
/// script `i` is known.
pub open spec fn status_checked(
    conn: ConnectionView,
    notes: Seq<JsonView>,
    i: int,
    status_hash: Option<FullHash>,
) -> (ConnectionView, Seq<JsonView>) {
    let subscription = conn.subscriptions[i];
    if status_hash == subscription.status_hash {
        (conn, notes)
    } else {
        let entry = Subscription { status_hash, ..subscription };
        (
            ConnectionView { subscriptions: conn.subscriptions.update(i, entry), ..conn },
            notes.push(status_note(subscription.script_hash, status_hash)),
        )
    }
}

/// Checks the scripts from script `i` on.
#[verifier::opaque]
pub open spec fn scan_course(
    s: Settings,
    conn: ConnectionView,
    notes: Seq<JsonView>,
    i: int,
    dirty: Set<FullHash>,
    tip_changed: bool,
    w: World,
    t: int,
) -> Course<Seq<JsonView>>
    decreases conn.subscriptions.len() - i,
{
    if i < 0 || i >= conn.subscriptions.len() {
        finished(conn, notes, t)
    } else {
        let script_hash = conn.subscriptions[i].script_hash;
        if !tip_changed && !dirty.contains(script_hash) {
            scan_course(s, conn, notes, i + 1, dirty, tip_changed, w, t)
        } else {
            let limit = (s.txs_limit + 1) as usize;
            let items = (w(t).history)(script_hash, limit);
            let asks = status_asks(items);
            let (conn1, notes1) = status_checked(conn, notes, i, status_at(items, w(t + 1)));
            preceded(
                seq![Act::Ask(LookupView::History(script_hash, limit))],
                if items.len() > s.txs_limit {
                    faulted(conn, FaultView::UpdateFailed(too_popular()), t + 1)
                } else {
                    preceded(
                        asking(asks),
                        scan_course(
                            s,
                            conn1,
                            notes1,
                            i + 1,
                            dirty,
                            tip_changed,
                            w,
                            t + 1 + asks.len(),
                        ),
                    )
                },
            )
        }
    }
}

/// Sends the notes that an update gives, one on each line, once the time that it
/// took is taken down.
pub open spec fn notified(first: Course<Seq<JsonView>>) -> Course<bool> {
    match first.result {
        Err(fault) => Course {
            acts: first.acts,
            conn: first.conn,
            result: Err(fault),
            end: first.end,
        },
        Ok(notes) => preceded(
            first.acts,
            preceded(
                seq![Act::StopTimer] + notes.map_values(|note: JsonView| Act::Send(line(note))),
                finished(first.conn, true, first.end),
            ),
        ),
    }
}

/// What a connection does when it is told what changed.
pub open spec fn periodic_course(
    s: Settings,
    conn: ConnectionView,
    dirty: Set<FullHash>,
    tip_changed: bool,
    w: World,
    t: int,
) -> Course<bool> {
    preceded(
        seq![Act::StartTimer("periodic_update"@)],
        notified(update_course(s, conn, dirty, tip_changed, w, t)),
    )
}

/// What a connection does with what a line from its client says, if it is JSON.
pub open spec fn request_course(
    s: Settings,
    conn: ConnectionView,
    request: Result<JsonView, Seq<char>>,
    w: World,
    t: int,
) -> Course<bool> {
    match request {
        Err(cause) => faulted(conn, FaultView::InvalidJson(cause), t),
        Ok(JsonView::Array(cmds)) => if cmds.len() > MAX_ARRAY_BATCH {
            faulted(conn, FaultView::TooManyElements(cmds.len() as int), t)
        } else {
            batch_course(s, conn, cmds, Seq::empty(), w, t)
        },
        Ok(cmd) => continued(s, None, value_course(s, conn, cmd, w, t), w),
    }
}

/// What a connection does with a message; the result tells whether it goes on.
pub open spec fn message_course(
    s: Settings,
    conn: ConnectionView,
    message: Message,
    w: World,
    t: int,
) -> Course<bool> {
    match message {
        Message::Request(text) => request_course(s, conn, json_of_text(text@), w, t),
        Message::PeriodicUpdate { dirty, tip_changed } => periodic_course(
            s,
            conn,
            dirty@,
            tip_changed,
            w,
            t,
        ),
        Message::Done => finished(conn, false, t),
    }
}

/// What a connection does with its messages, up to one after which it does not go
/// on.
pub open spec fn messages_course(
    s: Settings,
    conn: ConnectionView,
    messages: Seq<Message>,
    w: World,
    t: int,
) -> Course<bool>
    decreases messages.len(),
{
    if messages.len() == 0 {
        finished(conn, true, t)
    } else {
        let before = messages_course(s, conn, messages.drop_last(), w, t);
        if before.result == Ok::<bool, FaultView>(true) {
            preceded(
                before.acts,
                message_course(s, before.conn, messages.last(), w, before.end),
            )
        } else {
            before
        }
    }
}

/// Logs that a connection begins or ends, if that is logged.
pub open spec fn event_acts(s: Settings, name: Seq<char>) -> Seq<Act> {
    if s.rpc_logging.enabled {
        seq![Act::Log(event_line(s, object().with("event"@, JsonView::Text(name))))]
    } else {
        Seq::empty()
    }
}

/// What is done when a client connects.
pub open spec fn opened(s: Settings) -> Seq<Act> {
    seq![Act::Connected] + event_acts(s, "connection_established"@)
}

/// What is done when a connection ends, however it ends: what the client still
/// follows is counted off.
pub open spec fn closed(s: Settings, conn: ConnectionView) -> Seq<Act> {
    seq![Act::Disconnected, Act::Forgotten(conn.subscriptions.len() as int)] + event_acts(
        s,
        "connection_closed"@,
    )
}

} // verus!
