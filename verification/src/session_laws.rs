//! What the operations of a connection do, in terms of what it was and what it is told.
use crate::commands::{command_run, Change};
use crate::connection::Connection;
use crate::dialogue::{
    closed, command_parts, event_line, message_course, opened, periodic_course,
    request_course, value_course, Act, FaultView,
};
use crate::hash::sha256;
use crate::json::{
    contents, parse_json, render_json, tree, tree_of_text, tree_text, Json, JsonView,
};
use crate::messages::{DirtyScriptHashes, Message};
use crate::pending::{Pending, Progress};
use crate::query::{gives, Answer, Index, Lookup, World};
use crate::session::{effect_acts, Effect, Fault, Session, Step};
use crate::settings::Settings;
use crate::text::hex;
use vstd::prelude::*;
use vstd::utf8::encode_utf8;

verus! {

/// The client of a new connection follows nothing.
pub proof fn lemma_connection_made(settings: Settings, conn: Connection, session: Session)
    requires
        call_ensures(Connection::new, (settings,), conn),
        call_ensures(Session::new, (settings,), session),
    ensures
        conn.settings == settings,
        conn.last_header_entry is None,
        conn.status_hashes@.len() == 0,
        session.conn.settings == settings,
        session.conn.last_header_entry is None,
        session.conn.status_hashes@.len() == 0,
        session.task is Idle,
{
    assert(conn@.last_header_entry is None && session.conn@.last_header_entry is None);
    assert(conn@.subscriptions.len() == 0 && session.conn@.subscriptions.len() == 0);
}

/// A change is made to what the client follows, and to nothing else.
pub proof fn lemma_change_applied(conn: &mut Connection, change: Change)
    requires
        call_ensures(Connection::apply, (conn, change), ()),
    ensures
        final(conn)@ == old(conn)@.changed(change@),
        final(conn).settings == old(conn).settings,
        final(conn).wf(),
{
}

/// What is done at the two ends of a connection is what `opened` and `closed` say.
pub proof fn lemma_ends_done(session: Session, first: Vec<Effect>, last: Vec<Effect>)
    requires
        call_ensures(Session::open, (&session,), first),
        call_ensures(Session::close, (&session,), last),
    ensures
        effect_acts(first@) == opened(session.conn.settings),
        effect_acts(last@) == closed(session.conn.settings, session.conn@),
{
}

/// A message is handled as `message_course` says, whatever the index answers, and
/// settings stay as they are.
pub proof fn lemma_message_started(
    session: &mut Session,
    message: Message,
    step: Step,
    w: World,
    t: int,
)
    requires
        call_ensures(Session::handle_replies, (session, message), step),
    ensures
        step.course(*final(session), w, t) == message_course(
            old(session).conn.settings,
            old(session).conn@,
            message,
            w,
            t,
        ),
        step.wf(*final(session)),
        final(session).conn.settings == old(session).conn.settings,
{
}

/// What a line says is handled as `request_course` says.
pub proof fn lemma_request_started(
    session: &mut Session,
    request: Result<Json, String>,
    step: Step,
    w: World,
    t: int,
)
    requires
        call_ensures(Session::handle_request, (session, request), step),
    ensures
        step.course(*final(session), w, t) == request_course(
            old(session).conn.settings,
            old(session).conn@,
            match request {
                Ok(json) => Ok(json@),
                Err(cause) => Err(cause@),
            },
            w,
            t,
        ),
        step.wf(*final(session)),
{
}

/// News of the index is handled as `periodic_course` says.
pub proof fn lemma_update_started(
    session: &mut Session,
    dirty: DirtyScriptHashes,
    tip_changed: bool,
    step: Step,
    w: World,
    t: int,
)
    requires
        call_ensures(Session::update_subscriptions, (session, dirty, tip_changed), step),
    ensures
        step.course(*final(session), w, t) == periodic_course(
            old(session).conn.settings,
            old(session).conn@,
            dirty@,
            tip_changed,
            w,
            t,
        ),
        step.wf(*final(session)),
{
}

/// A connection that waits for an answer goes on with it where it was: what it still had
/// to do is to ask its question, and then what the step says.
pub proof fn lemma_answer_taken(
    session: &mut Session,
    answer: Answer,
    step: Step,
    w: World,
    t: int,
)
    requires
        gives(w(t), old(session).question(), answer),
        call_ensures(Session::resume, (session, answer), step),
    ensures
        ({
            let before = old(session).remaining(w, t);
            let after = step.course(*final(session), w, t + 1);
            &&& before.acts == seq![Act::Ask(old(session).question())] + after.acts
            &&& before.conn == after.conn
            &&& before.result == after.result
            &&& before.end == after.end
        }),
        step.wf(*final(session)),
{
}

/// A request that can be served starts as its method says; one that cannot is refused
/// for the reason that closes the connection.
pub proof fn lemma_request_taken(
    conn: Connection,
    cmd: Json,
    r: Result<Progress, Fault>,
    w: World,
    t: int,
)
    requires
        call_ensures(Connection::handle_value, (&conn, &cmd), r),
    ensures
        (match r {
            Ok(progress) => {
                &&& command_parts(cmd@) matches Some((method, params, id))
                &&& command_run(conn.settings, conn@.subscriptions, method, params, w, t) == Some(
                    progress.run(w, t),
                )
            },
            Err(fault) => value_course(conn.settings, conn@, cmd@, w, t).result == Err::<
                JsonView,
                FaultView,
            >(fault@),
        }),
{
}

/// A request that waits asks its question first, and then goes on with the answer.
pub proof fn lemma_pending_asks(pending: Pending, lookup: Lookup, w: World, t: int)
    requires
        call_ensures(Pending::lookup, (&pending,), lookup),
    ensures
        Progress::Ask(pending).run(w, t).asks.len() > 0,
        Progress::Ask(pending).run(w, t).asks[0] == lookup@,
{
}

/// A request goes on with an answer as it does with the index that gives it.
pub proof fn lemma_pending_resumed(
    pending: Pending,
    answer: Answer,
    r: Progress,
    ix: Index,
    w: World,
    t: int,
)
    requires
        gives(ix, pending.question(), answer),
        w(t) == ix,
        call_ensures(Pending::resume, (pending, answer), r),
    ensures
        ({
            let before = Progress::Ask(pending).run(w, t);
            let after = r.run(w, t + 1);
            &&& before.asks == seq![pending.question()] + after.asks
            &&& before.outcome == after.outcome
        }),
{
    assert(r.run(w, t + 1) == pending.after(ix, w, t + 1));
}

/// A line is read as the tree that it encodes, and a value is written as the text of its
/// tree.
pub proof fn lemma_text_exchanged(
    text: &str,
    read: Result<Json, String>,
    json: Json,
    shown: String,
)
    requires
        call_ensures(parse_json, (text,), read),
        call_ensures(render_json, (&json,), shown),
    ensures
        (match read {
            Ok(value) => tree_of_text(text@) matches Ok(found) && value@ == contents(found),
            Err(fault) => tree_of_text(text@) == Err::<serde_json::Value, Seq<char>>(fault@),
        }),
        shown@ == tree_text(tree(json@)),
{
}

/// An address is hidden behind the digest of the salt and the address, and events are
/// logged with the address that is shown.
pub proof fn lemma_events_logged(
    conn: Connection,
    ip: &str,
    hidden: String,
    log: Json,
    logged: String,
    name: &str,
    event: Option<String>,
)
    requires
        call_ensures(Connection::hash_ip_with_salt, (&conn, ip), hidden),
        call_ensures(Connection::log_rpc_event, (&conn, log), logged),
        call_ensures(Connection::connection_event, (&conn, name), event),
    ensures
        hidden@ == hex(sha256(encode_utf8(conn.settings.salt@ + ip@))),
        logged@ == event_line(conn.settings, log@),
        event is Some <==> conn.settings.rpc_logging.enabled,
        event matches Some(line) ==> line@ == event_line(
            conn.settings,
            JsonView::Object(seq![("event"@, JsonView::Text(name@))]),
        ),
{
    assert(Seq::empty().push(("event"@, JsonView::Text(name@))) =~= seq![
        ("event"@, JsonView::Text(name@)),
    ]);
}

} // verus!
