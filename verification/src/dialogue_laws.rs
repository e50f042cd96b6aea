//! What a connection does with what it is told, act by act, and what the lines say
//! that it sends and logs.
use crate::chain::{BlockId, HeaderEntryView, Txid};
use crate::commands::{
    command_run, hash_json, header_entry_json, status_asks, status_at, ChangeView, Run,
    Subscription,
};
use crate::connection::{subscribe, unsubscribe, ConnectionView};
use crate::dialogue::{
    asking, batch_course, change_acts, closed, command_parts, elapsed, event_line,
    header_note, line, logged_ip, message_course, messages_course, opened, periodic_course,
    reply_json, request_course, response_event, scan_course, status_note, update_course,
    value_course, Act, FaultView,
};
use crate::encoding_laws::lemma_field_found;
use crate::hash::{hash_text, sha256, FullHash};
use crate::history::status_json;
use crate::history_laws::heights_fit;
use crate::json::{
    contents, json_of_text, text_of_json, tree, tree_of_text, tree_text, JsonView,
};
use crate::messages::Message;
use crate::params::ErrorView;
use crate::query::{LookupView, World};
use crate::reply_laws::{
    gives_hash, integer_of, lemma_histogram_reply, lemma_history_reply, lemma_merkle_reply,
    shows_hashes,
};
use crate::settings::Settings;
use crate::text::hex;
use vstd::prelude::*;
use vstd::utf8::encode_utf8;

verus! {

/// A request has a method, which is a text, an id, and parameters in an array; it
/// may leave these out where there are none. What lacks one of them is no request.
pub proof fn lemma_request_read(cmd: JsonView)
    ensures
        command_parts(cmd) is Some <==> {
            &&& cmd.field("method"@) matches Some(JsonView::Text(_))
            &&& cmd.field("id"@) is Some
            &&& cmd.field("params"@) matches Some(params) ==> params is Array
        },
        command_parts(cmd) matches Some((method, params, id)) ==> {
            &&& cmd.field("method"@) == Some(JsonView::Text(method))
            &&& cmd.field("id"@) == Some(id)
            &&& match cmd.field("params"@) {
                Some(given) => given == JsonView::Array(params),
                None => params.len() == 0,
            }
        },
{
}

/// `cmd` asks for a method with these parameters, under this id.
pub open spec fn requests(
    cmd: JsonView,
    method: Seq<char>,
    params: Seq<JsonView>,
    id: JsonView,
) -> bool {
    &&& cmd.field("method"@) == Some(JsonView::Text(method))
    &&& cmd.field("id"@) == Some(id)
    &&& match cmd.field("params"@) {
        Some(given) => given == JsonView::Array(params),
        None => params == Seq::<JsonView>::empty(),
    }
}

/// A reply says the version of the protocol, the id of its request, and either the
/// result or the message of the error, and nothing else.
pub proof fn lemma_reply_content(id: JsonView, result: Result<JsonView, ErrorView>)
    ensures
        reply_json(id, result) == JsonView::Object(
            seq![
                ("jsonrpc"@, JsonView::Text("2.0"@)),
                ("id"@, id),
                match result {
                    Ok(value) => ("result"@, value),
                    Err(e) => ("error"@, JsonView::Text(e.message)),
                },
            ],
        ),
{
    assert(reply_json(id, result)->Object_0 =~= seq![
        ("jsonrpc"@, JsonView::Text("2.0"@)),
        ("id"@, id),
        match result {
            Ok(value) => ("result"@, value),
            Err(e) => ("error"@, JsonView::Text(e.message)),
        },
    ]);
}

/// What is sent is the text of a value, and the end of the line.
pub proof fn lemma_line_content(json: JsonView)
    ensures
        line(json).drop_last() == text_of_json(json),
        line(json).last() == '\n',
        text_of_json(json) == tree_text(tree(json)),
{
    reveal_strlit("\n");
    assert(line(json).drop_last() =~= text_of_json(json));
}

/// What a line says is what the tree holds that it encodes.
pub proof fn lemma_line_read(text: Seq<char>)
    ensures
        (match tree_of_text(text) {
            Ok(value) => json_of_text(text) == Ok::<JsonView, Seq<char>>(contents(value)),
            Err(fault) => json_of_text(text) == Err::<JsonView, Seq<char>>(fault),
        }),
{
}

/// What a client follows after a change, and how the change is counted: what is
/// followed from now on counts as one more unless it was followed already, and what
/// is followed no longer as one less if it was.
pub proof fn lemma_change_made(conn: ConnectionView, change: ChangeView)
    ensures
        ({
            let after = conn.changed(change);
            let acts = change_acts(conn.subscriptions, change);
            let followed = |h: FullHash|
                exists|i: int|
                    0 <= i < conn.subscriptions.len() && (
                    #[trigger] conn.subscriptions[i]).script_hash == h;
            match change {
                ChangeView::Nothing => after == conn && acts.len() == 0,
                ChangeView::Rescan => after == conn && acts == seq![
                    Act::Update(Set::empty(), true),
                ],
                ChangeView::Follow(entry) => {
                    &&& after.last_header_entry == Some(entry)
                    &&& after.subscriptions == conn.subscriptions
                    &&& acts.len() == 0
                },
                ChangeView::Subscribe(script_hash, status_hash) => {
                    &&& after.last_header_entry == conn.last_header_entry
                    &&& after.subscriptions == subscribe(
                        conn.subscriptions,
                        script_hash,
                        status_hash,
                    )
                    &&& acts == (if followed(script_hash) {
                        Seq::empty()
                    } else {
                        seq![Act::Subscribed]
                    })
                },
                ChangeView::Unsubscribe(script_hash) => {
                    &&& after.last_header_entry == conn.last_header_entry
                    &&& after.subscriptions == unsubscribe(conn.subscriptions, script_hash)
                    &&& acts == (if followed(script_hash) {
                        seq![Act::Unsubscribed]
                    } else {
                        Seq::empty()
                    })
                },
            }
        }),
{
}

/// A script that is followed keeps its place and gets the new hash; one that was not
/// comes last. The others stay as they are.
pub proof fn lemma_subscribe_placed(
    subscriptions: Seq<Subscription>,
    script_hash: FullHash,
    status_hash: Option<FullHash>,
)
    ensures
        ({
            let after = subscribe(subscriptions, script_hash, status_hash);
            let entry = Subscription { script_hash, status_hash };
            &&& forall|i: int|
                0 <= i < subscriptions.len() ==> #[trigger] after[i] == (
                if subscriptions[i].script_hash == script_hash {
                    entry
                } else {
                    subscriptions[i]
                })
            &&& if exists|i: int|
                0 <= i < subscriptions.len() && (#[trigger] subscriptions[i]).script_hash
                    == script_hash {
                after.len() == subscriptions.len()
            } else {
                after == subscriptions.push(entry)
            }
        }),
{
}

/// What is followed no longer is left out; the others stay, in order.
pub proof fn lemma_unsubscribe_kept(subscriptions: Seq<Subscription>, script_hash: FullHash)
    ensures
        unsubscribe(subscriptions, script_hash) == subscriptions.filter(
            |subscription: Subscription| subscription.script_hash != script_hash,
        ),
    decreases subscriptions.len(),
{
    reveal(Seq::filter);
    if subscriptions.len() > 0 {
        lemma_unsubscribe_kept(subscriptions.drop_last(), script_hash);
    }
}

/// What is done for a request that is served, in order: it is timed, it asks the
/// index, makes its change, and where it fails, that is reported.
pub open spec fn request_acts(
    subscriptions: Seq<Subscription>,
    method: Seq<char>,
    params: Seq<JsonView>,
    id: JsonView,
    run: Run,
) -> Seq<Act> {
    seq![Act::StartTimer(method)] + run.asks.map_values(|lookup: LookupView| Act::Ask(lookup))
        + change_acts(subscriptions, run.outcome.change) + seq![Act::StopTimer] + (
    match run.outcome.reply {
        Ok(_) => Seq::empty(),
        Err(e) => seq![Act::Failed(id, method, params, e)],
    })
}

/// A request that is served is replied what came of it, under its id, and makes its
/// change. Where requests are logged, the time is asked for before and after, and a
/// line is logged at the end.
pub proof fn lemma_request_served(
    s: Settings,
    conn: ConnectionView,
    cmd: JsonView,
    method: Seq<char>,
    params: Seq<JsonView>,
    id: JsonView,
    run: Run,
    w: World,
    t: int,
)
    requires
        requests(cmd, method, params, id),
        command_run(
            s,
            conn.subscriptions,
            method,
            params,
            w,
            if s.rpc_logging.enabled {
                t + 1
            } else {
                t
            },
        ) == Some(run),
    ensures
        ({
            let course = value_course(s, conn, cmd, w, t);
            let reply = JsonView::Object(
                seq![
                    ("jsonrpc"@, JsonView::Text("2.0"@)),
                    ("id"@, id),
                    match run.outcome.reply {
                        Ok(value) => ("result"@, value),
                        Err(e) => ("error"@, JsonView::Text(e.message)),
                    },
                ],
            );
            let acts = request_acts(conn.subscriptions, method, params, id, run);
            let now = Act::Ask(LookupView::Now);
            let n = run.asks.len();
            &&& course.result == Ok::<JsonView, FaultView>(reply)
            &&& course.conn == conn.changed(run.outcome.change)
            &&& if s.rpc_logging.enabled {
                &&& course.end == t + n + 2
                &&& course.acts == seq![now] + acts + seq![
                    now,
                    Act::Log(
                        event_line(
                            s,
                            response_event(
                                s,
                                cmd,
                                reply,
                                elapsed(w(t).now, w(t + 1 + n).now),
                            ),
                        ),
                    ),
                ]
            } else {
                &&& course.end == t + n
                &&& course.acts == acts
            }
        }),
{
    reveal(value_course);
    assert(command_parts(cmd) == Some((method, params, id)));
    lemma_reply_content(id, run.outcome.reply);
    let course = value_course(s, conn, cmd, w, t);
    let acts = request_acts(conn.subscriptions, method, params, id, run);
    let now = Act::Ask(LookupView::Now);
    let n = run.asks.len();
    let reply = reply_json(id, run.outcome.reply);
    if s.rpc_logging.enabled {
        assert(course.acts =~= seq![now] + acts + seq![
            now,
            Act::Log(
                event_line(
                    s,
                    response_event(s, cmd, reply, elapsed(w(t).now, w(t + 1 + n).now)),
                ),
            ),
        ]);
    } else {
        assert(course.acts =~= acts);
    }
}

/// What is no request, or asks for a method that is not known, gets no reply, and
/// nothing is asked or changed.
pub proof fn lemma_request_not_served(
    s: Settings,
    conn: ConnectionView,
    cmd: JsonView,
    w: World,
    t: int,
)
    ensures
        ({
            let course = value_course(s, conn, cmd, w, t);
            &&& command_parts(cmd) is None ==> {
                &&& course.result == Err::<JsonView, FaultView>(FaultView::InvalidCommand(cmd))
                &&& course.acts.len() == 0
                &&& course.conn == conn
                &&& course.end == t
            }
            &&& command_parts(cmd) matches Some((method, params, id)) ==> (command_run(
                s,
                conn.subscriptions,
                method,
                params,
                w,
                if s.rpc_logging.enabled {
                    t + 1
                } else {
                    t
                },
            ) is None ==> {
                &&& course.result == Err::<JsonView, FaultView>(
                    FaultView::UnknownMethod(method, params),
                )
                &&& course.acts == seq![Act::StartTimer(method)]
                &&& course.conn == conn
                &&& course.end == t
            })
        }),
{
    reveal(value_course);
    let course = value_course(s, conn, cmd, w, t);
    if let Some((method, params, id)) = command_parts(cmd) {
        if course.acts.len() == 1 {
            assert(course.acts =~= seq![course.acts[0]]);
        }
    }
}

/// A batch is served request by request, each with what the client follows after the
/// one before it, and the replies are sent together, in order. It ends at the first
/// request that cannot be served.
pub proof fn lemma_batch_served(
    s: Settings,
    conn: ConnectionView,
    cmds: Seq<JsonView>,
    replies: Seq<JsonView>,
    w: World,
    t: int,
)
    ensures
        ({
            let course = batch_course(s, conn, cmds, replies, w, t);
            if cmds.len() == 0 {
                &&& course.acts == seq![Act::Send(line(JsonView::Array(replies)))]
                &&& course.conn == conn
                &&& course.result == Ok::<bool, FaultView>(true)
                &&& course.end == t
            } else {
                let first = value_course(s, conn, cmds[0], w, t);
                match first.result {
                    Err(fault) => {
                        &&& course.acts == first.acts
                        &&& course.conn == first.conn
                        &&& course.result == Err::<bool, FaultView>(fault)
                    },
                    Ok(reply) => {
                        let rest = batch_course(
                            s,
                            first.conn,
                            cmds.skip(1),
                            replies.push(reply),
                            w,
                            first.end,
                        );
                        &&& course.acts == first.acts + rest.acts
                        &&& course.conn == rest.conn
                        &&& course.result == rest.result
                        &&& course.end == rest.end
                    },
                }
            }
        }),
{
    reveal(batch_course);
    if cmds.len() > 0 {
        assert(cmds.drop_first() =~= cmds.skip(1));
    } else {
        assert(batch_course(s, conn, cmds, replies, w, t).acts =~= seq![
            Act::Send(line(JsonView::Array(replies))),
        ]);
    }
}

/// A line that is not JSON closes the connection; so does a batch of more than 20
/// requests. A request gets its reply on a line, and a batch gets its replies.
pub proof fn lemma_line_handled(
    s: Settings,
    conn: ConnectionView,
    request: Result<JsonView, Seq<char>>,
    w: World,
    t: int,
)
    ensures
        ({
            let course = request_course(s, conn, request, w, t);
            match request {
                Err(cause) => {
                    &&& course.result == Err::<bool, FaultView>(FaultView::InvalidJson(cause))
                    &&& course.acts.len() == 0
                    &&& course.conn == conn
                },
                Ok(JsonView::Array(cmds)) => if cmds.len() > 20 {
                    &&& course.result == Err::<bool, FaultView>(
                        FaultView::TooManyElements(cmds.len() as int),
                    )
                    &&& course.acts.len() == 0
                    &&& course.conn == conn
                } else {
                    course == batch_course(s, conn, cmds, Seq::empty(), w, t)
                },
                Ok(cmd) => {
                    let first = value_course(s, conn, cmd, w, t);
                    &&& course.conn == first.conn
                    &&& course.end == first.end
                    &&& match first.result {
                        Err(fault) => {
                            &&& course.result == Err::<bool, FaultView>(fault)
                            &&& course.acts == first.acts
                        },
                        Ok(reply) => {
                            &&& course.result == Ok::<bool, FaultView>(true)
                            &&& course.acts == first.acts.push(Act::Send(line(reply)))
                        },
                    }
                },
            }
        }),
{
    if let Ok(cmd) = request {
        let first = value_course(s, conn, cmd, w, t);
        if !(cmd is Array) && first.result is Ok {
            assert(request_course(s, conn, request, w, t).acts =~= first.acts.push(
                Act::Send(line(first.result->Ok_0)),
            ));
        }
    }
}

/// A message is a line from the client, or news of the index, or the last one.
pub proof fn lemma_message_handled(
    s: Settings,
    conn: ConnectionView,
    message: Message,
    w: World,
    t: int,
)
    ensures
        (match message {
            Message::Request(text) => message_course(s, conn, message, w, t) == request_course(
                s,
                conn,
                json_of_text(text@),
                w,
                t,
            ),
            Message::PeriodicUpdate { dirty, tip_changed } => message_course(
                s,
                conn,
                message,
                w,
                t,
            ) == periodic_course(s, conn, dirty@, tip_changed, w, t),
            Message::Done => {
                let course = message_course(s, conn, message, w, t);
                &&& course.acts.len() == 0
                &&& course.conn == conn
                &&& course.result == Ok::<bool, FaultView>(false)
            },
        }),
{
}

/// News of the index is timed, and the client is then sent a line for each note that
/// the update gives, in order. An update that fails sends none, and closes the
/// connection.
pub proof fn lemma_update_sent(
    s: Settings,
    conn: ConnectionView,
    dirty: Set<FullHash>,
    tip_changed: bool,
    w: World,
    t: int,
)
    ensures
        ({
            let update = update_course(s, conn, dirty, tip_changed, w, t);
            let course = periodic_course(s, conn, dirty, tip_changed, w, t);
            let start = seq![Act::StartTimer("periodic_update"@)];
            &&& course.conn == update.conn
            &&& course.end == update.end
            &&& match update.result {
                Err(fault) => {
                    &&& course.acts == start + update.acts
                    &&& course.result == Err::<bool, FaultView>(fault)
                },
                Ok(notes) => {
                    &&& course.acts == start + update.acts + seq![Act::StopTimer]
                        + notes.map_values(|note: JsonView| Act::Send(line(note)))
                    &&& course.result == Ok::<bool, FaultView>(true)
                },
            }
        }),
{
    let update = update_course(s, conn, dirty, tip_changed, w, t);
    let course = periodic_course(s, conn, dirty, tip_changed, w, t);
    let start = seq![Act::StartTimer("periodic_update"@)];
    if let Ok(notes) = update.result {
        assert(course.acts =~= start + update.acts + seq![Act::StopTimer] + notes.map_values(
            |note: JsonView| Act::Send(line(note)),
        ));
    }
}

/// Messages are handled one after the other, up to one after which the connection
/// does not go on.
pub proof fn lemma_messages_handled(
    s: Settings,
    conn: ConnectionView,
    messages: Seq<Message>,
    message: Message,
    w: World,
    t: int,
)
    ensures
        ({
            let none = messages_course(s, conn, Seq::empty(), w, t);
            &&& none.acts.len() == 0
            &&& none.conn == conn
            &&& none.result == Ok::<bool, FaultView>(true)
            &&& none.end == t
        }),
        ({
            let before = messages_course(s, conn, messages, w, t);
            let after = messages_course(s, conn, messages.push(message), w, t);
            let last = message_course(s, before.conn, message, w, before.end);
            if before.result == Ok::<bool, FaultView>(true) {
                &&& after.acts == before.acts + last.acts
                &&& after.conn == last.conn
                &&& after.result == last.result
                &&& after.end == last.end
            } else {
                after == before
            }
        }),
{
    assert(messages.push(message).drop_last() =~= messages);
}

/// The note that there is a new best header names it as the client would be replied
/// it.
pub proof fn lemma_header_note_content(entry: HeaderEntryView)
    ensures
        header_note(entry) == JsonView::Object(
            seq![
                ("jsonrpc"@, JsonView::Text("2.0"@)),
                ("method"@, JsonView::Text("blockchain.headers.subscribe"@)),
                (
                    "params"@,
                    JsonView::Array(
                        seq![
                            JsonView::Object(
                                seq![
                                    ("hex"@, JsonView::Text(hex(entry.header.encoded()))),
                                    ("height"@, JsonView::Unsigned(entry.height as u64)),
                                ],
                            ),
                        ],
                    ),
                ),
            ],
        ),
{
    let shown = JsonView::Object(
        seq![
            ("hex"@, JsonView::Text(hex(entry.header.encoded()))),
            ("height"@, JsonView::Unsigned(entry.height as u64)),
        ],
    );
    assert(header_entry_json(entry)->Object_0 =~= shown->Object_0);
    assert(header_note(entry)->Object_0 =~= seq![
        ("jsonrpc"@, JsonView::Text("2.0"@)),
        ("method"@, JsonView::Text("blockchain.headers.subscribe"@)),
        ("params"@, JsonView::Array(seq![shown])),
    ]);
}

/// The note that a history changed names the script and the hash of the history, or
/// says that there is none.
pub proof fn lemma_status_note_content(script_hash: FullHash, status_hash: Option<FullHash>)
    ensures
        status_note(script_hash, status_hash) == JsonView::Object(
            seq![
                ("jsonrpc"@, JsonView::Text("2.0"@)),
                ("method"@, JsonView::Text("blockchain.scripthash.subscribe"@)),
                (
                    "params"@,
                    JsonView::Array(
                        seq![
                            JsonView::Text(hash_text(script_hash@)),
                            match status_hash {
                                Some(hash) => JsonView::Text(hex(hash@)),
                                None => JsonView::Null,
                            },
                        ],
                    ),
                ),
            ],
        ),
{
    let params = seq![
        JsonView::Text(hash_text(script_hash@)),
        match status_hash {
            Some(hash) => JsonView::Text(hex(hash@)),
            None => JsonView::Null,
        },
    ];
    assert(seq![hash_json(script_hash), status_json(status_hash)] =~= params);
    assert(status_note(script_hash, status_hash)->Object_0 =~= seq![
        ("jsonrpc"@, JsonView::Text("2.0"@)),
        ("method"@, JsonView::Text("blockchain.scripthash.subscribe"@)),
        ("params"@, JsonView::Array(params)),
    ]);
}

/// The address of a client is logged as it is, or as the salted digest of it, with
/// the bytes in order.
pub proof fn lemma_address_logged(s: Settings)
    ensures
        !s.rpc_logging.anonymize_ip ==> logged_ip(s) == s.ip@,
        s.rpc_logging.anonymize_ip ==> logged_ip(s) == hex(
            sha256(encode_utf8(s.salt@ + s.ip@)),
        ),
{
}

/// A line of the log is the text of an event and, last, of the address and the port of
/// the client that it is about.
pub proof fn lemma_log_line_content(s: Settings, fields: Seq<(Seq<char>, JsonView)>)
    ensures
        event_line(s, JsonView::Object(fields)) == tree_text(
            tree(
                JsonView::Object(
                    fields.push(
                        (
                            "source"@,
                            JsonView::Object(
                                seq![
                                    ("ip"@, JsonView::Text(logged_ip(s))),
                                    ("port"@, JsonView::Unsigned(s.port as u64)),
                                ],
                            ),
                        ),
                    ),
                ),
            ),
        ),
{
    let source = seq![
        ("ip"@, JsonView::Text(logged_ip(s))),
        ("port"@, JsonView::Unsigned(s.port as u64)),
    ];
    assert(Seq::empty().push(("ip"@, JsonView::Text(logged_ip(s)))).push(
        ("port"@, JsonView::Unsigned(s.port as u64)),
    ) =~= source);
}

/// The event of a reply names the method, the parameters, unless these are hidden, and
/// the id of the request, how long both texts are in bytes, and how long it took.
pub proof fn lemma_response_event_content(
    s: Settings,
    cmd: JsonView,
    method: Seq<char>,
    params: Seq<JsonView>,
    id: JsonView,
    reply: JsonView,
    duration: u64,
)
    requires
        requests(cmd, method, params, id),
    ensures
        response_event(s, cmd, reply, duration) == JsonView::Object(
            seq![
                ("event"@, JsonView::Text("rpc_response"@)),
                ("method"@, JsonView::Text(method)),
                (
                    "params"@,
                    if s.rpc_logging.hide_params {
                        JsonView::Null
                    } else {
                        JsonView::Array(params)
                    },
                ),
                (
                    "request_size"@,
                    JsonView::Unsigned(encode_utf8(tree_text(tree(cmd))).len() as u64),
                ),
                (
                    "response_size"@,
                    JsonView::Unsigned(encode_utf8(tree_text(tree(reply))).len() as u64),
                ),
                ("duration_micros"@, JsonView::Unsigned(duration)),
                ("id"@, id),
            ],
        ),
{
    assert(command_parts(cmd) == Some((method, params, id)));
    assert(response_event(s, cmd, reply, duration)->Object_0 =~= seq![
        ("event"@, JsonView::Text("rpc_response"@)),
        ("method"@, JsonView::Text(method)),
        (
            "params"@,
            if s.rpc_logging.hide_params {
                JsonView::Null
            } else {
                JsonView::Array(params)
            },
        ),
        ("request_size"@, JsonView::Unsigned(encode_utf8(tree_text(tree(cmd))).len() as u64)),
        ("response_size"@, JsonView::Unsigned(encode_utf8(tree_text(tree(reply))).len() as u64)),
        ("duration_micros"@, JsonView::Unsigned(duration)),
        ("id"@, id),
    ]);
}

/// The time that passes from one time to a later one is what lies between them; none
/// passes to an earlier one.
pub proof fn lemma_time_passes(from: u64, to: u64)
    ensures
        from <= to ==> from + elapsed(from, to) == to,
        from > to ==> elapsed(from, to) == 0,
{
}

/// A client is counted when it connects and counted off when its connection ends,
/// together with all that it still follows then. Both are logged where requests are.
pub proof fn lemma_ends_content(s: Settings, conn: ConnectionView)
    ensures
        ({
            let logs = |name: Seq<char>|
                if s.rpc_logging.enabled {
                    seq![
                        Act::Log(
                            event_line(
                                s,
                                JsonView::Object(seq![("event"@, JsonView::Text(name))]),
                            ),
                        ),
                    ]
                } else {
                    Seq::empty()
                };
            &&& opened(s) == seq![Act::Connected] + logs("connection_established"@)
            &&& closed(s, conn) == seq![
                Act::Disconnected,
                Act::Forgotten(conn.subscriptions.len() as int),
            ] + logs("connection_closed"@)
        }),
{
    let (a, b) = ("connection_established"@, "connection_closed"@);
    let (c, d) = (("event"@, JsonView::Text(a)), ("event"@, JsonView::Text(b)));
    assert(Seq::empty().push(c) =~= seq![c]);
    assert(Seq::empty().push(d) =~= seq![d]);
}

/// An update goes through the scripts that the client follows in order. One whose
/// mempool state did not change is passed over unless there is a new block. Of each
/// other one the history is asked for, and one transaction more than is served fails
/// the update.
pub proof fn lemma_scan_step(
    s: Settings,
    conn: ConnectionView,
    notes: Seq<JsonView>,
    i: int,
    dirty: Set<FullHash>,
    tip_changed: bool,
    w: World,
    t: int,
)
    requires
        0 <= i < conn.subscriptions.len(),
    ensures
        ({
            let course = scan_course(s, conn, notes, i, dirty, tip_changed, w, t);
            let subscription = conn.subscriptions[i];
            let limit = (s.txs_limit + 1) as usize;
            let items = (w(t).history)(subscription.script_hash, limit);
            let ask = Act::Ask(LookupView::History(subscription.script_hash, limit));
            let status_hash = status_at(items, w(t + 1));
            let asks = status_asks(items);
            if !tip_changed && !dirty.contains(subscription.script_hash) {
                course == scan_course(s, conn, notes, i + 1, dirty, tip_changed, w, t)
            } else if items.len() > s.txs_limit {
                &&& course.acts == seq![ask]
                &&& course.conn == conn
                &&& course.result matches Err(FaultView::UpdateFailed(e))
                &&& e.message == "Too many history entries"@
            } else {
                let told = status_hash != subscription.status_hash;
                let after = ConnectionView {
                    subscriptions: conn.subscriptions.update(
                        i,
                        Subscription { script_hash: subscription.script_hash, status_hash },
                    ),
                    ..conn
                };
                let more = if told {
                    notes.push(status_note(subscription.script_hash, status_hash))
                } else {
                    notes
                };
                let rest = scan_course(
                    s,
                    after,
                    more,
                    i + 1,
                    dirty,
                    tip_changed,
                    w,
                    t + 1 + asks.len(),
                );
                &&& course.acts == seq![ask] + asking(asks) + rest.acts
                &&& course.conn == rest.conn
                &&& course.result == rest.result
            }
        }),
{
    reveal(scan_course);
    let subscription = conn.subscriptions[i];
    let items = (w(t).history)(subscription.script_hash, (s.txs_limit + 1) as usize);
    let status_hash = status_at(items, w(t + 1));
    if status_hash == subscription.status_hash {
        assert(conn.subscriptions.update(
            i,
            Subscription { script_hash: subscription.script_hash, status_hash },
        ) =~= conn.subscriptions);
    }
    let course = scan_course(s, conn, notes, i, dirty, tip_changed, w, t);
    if course.acts.len() == 1 {
        assert(course.acts =~= seq![course.acts[0]]);
    }
}

/// An update first asks for the best header, where the client follows it; the client is
/// told of another one than it was last told, which is then on record. The scripts are
/// checked unless nothing changed, from the first to the last.
pub proof fn lemma_update_begins(
    s: Settings,
    conn: ConnectionView,
    dirty: Set<FullHash>,
    tip_changed: bool,
    w: World,
    t: int,
)
    ensures
        ({
            let course = update_course(s, conn, dirty, tip_changed, w, t);
            let (acts, after, notes, next) = match conn.last_header_entry {
                None => (Seq::empty(), conn, Seq::empty(), t),
                Some(last) => (
                    seq![Act::Ask(LookupView::BestHeader)],
                    ConnectionView { last_header_entry: Some(w(t).best_header), ..conn },
                    if w(t).best_header == last {
                        Seq::empty()
                    } else {
                        seq![header_note(w(t).best_header)]
                    },
                    t + 1,
                ),
            };
            if !tip_changed && dirty == Set::<FullHash>::empty() {
                &&& course.acts == acts
                &&& course.conn == after
                &&& course.result == Ok::<Seq<JsonView>, FaultView>(notes)
                &&& course.end == next
            } else {
                let rest = scan_course(s, after, notes, 0, dirty, tip_changed, w, next);
                &&& course.acts == acts + rest.acts
                &&& course.conn == rest.conn
                &&& course.result == rest.result
                &&& course.end == rest.end
            }
        }),
{
    let course = update_course(s, conn, dirty, tip_changed, w, t);
    if !tip_changed && dirty == Set::<FullHash>::empty() {
        assert(course.acts =~= (if conn.last_header_entry is None {
            Seq::empty()
        } else {
            seq![Act::Ask(LookupView::BestHeader)]
        }));
    } else if conn.last_header_entry is None {
        assert(course.acts =~= Seq::empty() + course.acts);
    }
}

/// An update ends after the last script, with the notes that it has gathered.
pub proof fn lemma_scan_ends(
    s: Settings,
    conn: ConnectionView,
    notes: Seq<JsonView>,
    dirty: Set<FullHash>,
    tip_changed: bool,
    w: World,
    t: int,
)
    ensures
        ({
            let course = scan_course(
                s,
                conn,
                notes,
                conn.subscriptions.len() as int,
                dirty,
                tip_changed,
                w,
                t,
            );
            &&& course.acts.len() == 0
            &&& course.conn == conn
            &&& course.result == Ok::<Seq<JsonView>, FaultView>(notes)
            &&& course.end == t
        }),
{
    reveal(scan_course);
}

/// The result in a reply is found under its name; so is the message of an error.
proof fn lemma_result_found(fields: Seq<(Seq<char>, JsonView)>)
    requires
        fields.len() == 3,
        fields[0].0 == "jsonrpc"@,
        fields[1].0 == "id"@,
        fields[2].0 == "result"@,
    ensures
        JsonView::Object(fields).field("id"@) == Some(fields[1].1),
        JsonView::Object(fields).field("result"@) == Some(fields[2].1),
{
    reveal_strlit("jsonrpc");
    reveal_strlit("id");
    reveal_strlit("result");
    assert("result"@[0] == 'r' && "id"@[0] == 'i' && "jsonrpc"@[0] == 'j');
    lemma_field_found(fields, 1);
    lemma_field_found(fields, 2);
}

/// The number of the first question of a request itself.
pub open spec fn first_asked(s: Settings, t: int) -> int {
    if s.rpc_logging.enabled {
        t + 1
    } else {
        t
    }
}

/// A client that asks for the fee histogram gets a reply under its id, whose result has
/// one item for each bin of the index: the pair of its feerate and its size.
pub proof fn lemma_histogram_answered(
    s: Settings,
    conn: ConnectionView,
    cmd: JsonView,
    params: Seq<JsonView>,
    id: JsonView,
    w: World,
    t: int,
)
    requires
        requests(cmd, "mempool.get_fee_histogram"@, params, id),
    ensures
        ({
            let bins = w(first_asked(s, t)).fee_histogram;
            &&& value_course(s, conn, cmd, w, t).result matches Ok(reply)
            &&& reply.field("id"@) == Some(id)
            &&& reply.field("result"@) matches Some(JsonView::Array(items))
            &&& items.len() == bins.len()
            &&& forall|i: int|
                0 <= i < bins.len() ==> (#[trigger] items[i] matches JsonView::Array(pair)
                    && pair.len() == 2 && pair[0] == bins[i].0 && pair[1] == JsonView::Unsigned(
                    bins[i].1,
                ))
        }),
{
    let first = first_asked(s, t);
    let method = "mempool.get_fee_histogram"@;
    lemma_histogram_reply(s, conn.subscriptions, params, w, first);
    let run = command_run(s, conn.subscriptions, method, params, w, first)->0;
    lemma_request_served(s, conn, cmd, method, params, id, run, w, t);
    lemma_result_found(value_course(s, conn, cmd, w, t).result->Ok_0->Object_0);
}

/// A client that asks for the proof of a transaction, at the height of the block that
/// confirms it, gets all of the proof that the index has.
pub proof fn lemma_merkle_answered(
    s: Settings,
    conn: ConnectionView,
    cmd: JsonView,
    params: Seq<JsonView>,
    id: JsonView,
    txid: Txid,
    block: BlockId,
    branch: Seq<FullHash>,
    pos: usize,
    w: World,
    t: int,
)
    requires
        requests(cmd, "blockchain.transaction.get_merkle"@, params, id),
        params.len() > 1,
        gives_hash(Some(params[0]), txid),
        params[1] == JsonView::Unsigned(block.height as u64),
        (w(first_asked(s, t)).confirming_block)(txid) == Some(block),
        (w(first_asked(s, t) + 1).transaction_proof)(txid, block.hash) == Some((branch, pos)),
    ensures
        value_course(s, conn, cmd, w, t).result matches Ok(reply) && reply.field("id"@) == Some(id)
            && (reply.field("result"@) matches Some(json) && {
            &&& json.field("block_height"@) == Some(JsonView::Unsigned(block.height as u64))
            &&& shows_hashes(json.field("merkle"@), branch)
            &&& json.field("pos"@) == Some(JsonView::Unsigned(pos as u64))
        }),
{
    let first = first_asked(s, t);
    let method = "blockchain.transaction.get_merkle"@;
    lemma_merkle_reply(s, conn.subscriptions, params, txid, block.height, w, first);
    let run = command_run(s, conn.subscriptions, method, params, w, first)->0;
    lemma_request_served(s, conn, cmd, method, params, id, run, w, t);
    lemma_result_found(value_course(s, conn, cmd, w, t).result->Ok_0->Object_0);
}

/// A client that asks for a history within the limit gets an entry for each transaction,
/// in order: under "height" the height of the block that confirms it, and in the mempool
/// minus one with unconfirmed parents, and else zero.
pub proof fn lemma_heights_answered(
    s: Settings,
    conn: ConnectionView,
    cmd: JsonView,
    params: Seq<JsonView>,
    id: JsonView,
    script_hash: FullHash,
    w: World,
    t: int,
)
    requires
        s.txs_limit < usize::MAX,
        requests(cmd, "blockchain.scripthash.get_history"@, params, id),
        params.len() > 0,
        gives_hash(Some(params[0]), script_hash),
        heights_fit((w(first_asked(s, t)).history)(script_hash, (s.txs_limit + 1) as usize)),
        (w(first_asked(s, t)).history)(script_hash, (s.txs_limit + 1) as usize).len()
            <= s.txs_limit,
    ensures
        ({
            let first = first_asked(s, t);
            let items = (w(first).history)(script_hash, (s.txs_limit + 1) as usize);
            let parents = w(first + 2).unconfirmed_parents;
            &&& value_course(s, conn, cmd, w, t).result matches Ok(reply)
            &&& reply.field("id"@) == Some(id)
            &&& reply.field("result"@) matches Some(JsonView::Array(entries))
            &&& entries.len() == items.len()
            &&& forall|i: int|
                0 <= i < items.len() ==> {
                    &&& (#[trigger] entries[i]).field("height"@) matches Some(height)
                    &&& integer_of(height) == Some(
                        match items[i].block {
                            Some(block) => block.height as int,
                            None => if parents(items[i].txid) {
                                -1
                            } else {
                                0
                            },
                        },
                    )
                }
        }),
{
    let first = first_asked(s, t);
    let method = "blockchain.scripthash.get_history"@;
    lemma_history_reply(s, conn.subscriptions, params, script_hash, w, first);
    let run = command_run(s, conn.subscriptions, method, params, w, first)->0;
    lemma_request_served(s, conn, cmd, method, params, id, run, w, t);
    lemma_result_found(value_course(s, conn, cmd, w, t).result->Ok_0->Object_0);
}

} // verus!
