//! A connection at work: each message takes it through questions to the index
//! and things to do, until it waits for the next message.
use crate::chain::HeaderEntry;
use crate::commands::{
    asked, command_run, hash_json, header_entry_json, status_asks, status_at, Change, OutcomeView,
    Run, Subscription,
};
use crate::connection::{Connection, ConnectionView};
use crate::dialogue::{
    asking, attempted, batch_course, change_acts, closed, command_parts, continued, encoded_len,
    event_acts, event_line, faulted, finished, header_checked, header_note, line, logged,
    message_course, note_json, notified, opened, outcome_acts, periodic_course, preceded,
    reply_course, reply_json, request_course, response_event, scan_course, scripts_course, sent,
    served, status_checked, status_note, timed, value_course, Act, Course, FaultView,
};

use crate::history::{
    get_history, get_status_hash, list_mempool_txids, mempool_txids, status_hash, status_json,
    status_value, too_popular,
};
use crate::hash::{full_hash, same_hash, FullHash};
use crate::values::{hash_value, header_entry_value};
use crate::json::{json_view, json_views, parse_json, parsed, render_json, Json, JsonView};
use crate::messages::{DirtyScriptHashes, Message, ScriptHashSet};
use crate::params::{outcome, RpcError};
use crate::pending::{Outcome, Pending, Progress};
use crate::query::{fits, gives, Answer, HistoryItem, Lookup, LookupView, World};
use crate::settings::{Settings, MAX_ARRAY_BATCH, MAX_SUMMED_UP};
use std::sync::Arc;
use vstd::prelude::*;
use vstd::string::StringExecFns;

verus! {

/// Something to do for a connection.
#[derive(Debug)]
pub enum Effect {
    /// Count a client that is connected from now on.
    Connected,
    /// Count a client off that is connected no longer.
    Disconnected,
    /// Start to time something, under a label.
    StartTimer(String),
    /// Take down how long what was timed has taken.
    StopTimer,
    /// Count a script that is followed from now on.
    Subscribed,
    /// Count a script off that is followed no longer.
    Unsubscribed,
    /// Count so many scripts off that are followed no longer.
    Forgotten(usize),
    /// Tell the connection that of these scripts the mempool state changed, and
    /// whether there is a new block.
    Update { dirty: DirtyScriptHashes, tip_changed: bool },
    /// Warn that a request failed: its id, method and parameters, and why.
    Failed(Json, String, Vec<Json>, RpcError),
    /// Write a line to the log of requests.
    Log(String),
    /// Send some text to the client.
    Send(String),
}

impl View for Effect {
    type V = Act;

    open spec fn view(&self) -> Act {
        match *self {
            Effect::Connected => Act::Connected,
            Effect::Disconnected => Act::Disconnected,
            Effect::StartTimer(label) => Act::StartTimer(label@),
            Effect::StopTimer => Act::StopTimer,
            Effect::Subscribed => Act::Subscribed,
            Effect::Unsubscribed => Act::Unsubscribed,
            Effect::Forgotten(n) => Act::Forgotten(n as int),
            Effect::Update { dirty, tip_changed } => Act::Update(dirty@, tip_changed),
            Effect::Failed(id, method, params, e) => Act::Failed(
                id@,
                method@,
                json_views(params@),
                e@,
            ),
            Effect::Log(text) => Act::Log(text@),
            Effect::Send(text) => Act::Send(text@),
        }
    }
}

/// What each of several things to do is.
pub open spec fn effect_acts(effects: Seq<Effect>) -> Seq<Act> {
    Seq::new(effects.len(), |i: int| effects[i]@)
}

/// Why a connection is closed.
#[derive(Debug)]
pub enum Fault {
    InvalidJson(String),
    TooManyElements(usize),
    UnknownMethod(String, Vec<Json>),
    InvalidCommand(Json),
    UpdateFailed(RpcError),
}

impl View for Fault {
    type V = FaultView;

    open spec fn view(&self) -> FaultView {
        match *self {
            Fault::InvalidJson(cause) => FaultView::InvalidJson(cause@),
            Fault::TooManyElements(n) => FaultView::TooManyElements(n as int),
            Fault::UnknownMethod(method, params) => FaultView::UnknownMethod(
                method@,
                json_views(params@),
            ),
            Fault::InvalidCommand(cmd) => FaultView::InvalidCommand(cmd@),
            Fault::UpdateFailed(e) => FaultView::UpdateFailed(e@),
        }
    }
}

/// What a connection is waiting for.
#[derive(Debug)]
pub enum Next {
    /// An answer of the index.
    Ask(Lookup),
    /// A message.
    Wait,
    /// Nothing: it is done.
    Stop,
    /// Nothing: it failed.
    Close(Fault),
}

/// What to do for a connection, in order, and what it then waits for.
#[derive(Debug)]
pub struct Step {
    pub effects: Vec<Effect>,
    pub next: Next,
}

/// Where a batch of requests stands: those from `next` on are still to be served.
#[derive(Debug)]
pub struct Batch {
    pub cmds: Vec<Json>,
    pub next: usize,
    pub replies: Vec<Json>,
}

impl Batch {
    /// No more requests are served than there are.
    pub open spec fn wf(&self) -> bool {
        self.next <= self.cmds@.len()
    }
}

/// The requests of a batch that are still to be served, and the replies so far.
pub open spec fn batch_view(batch: Option<Batch>) -> Option<(Seq<JsonView>, Seq<JsonView>)> {
    match batch {
        None => None,
        Some(batch) => Some(
            (json_views(batch.cmds@).skip(batch.next as int), json_views(batch.replies@)),
        ),
    }
}

/// The batch that a request belongs to, if any, is in order.
pub open spec fn batch_wf(batch: Option<Batch>) -> bool {
    match batch {
        None => true,
        Some(batch) => batch.wf(),
    }
}

/// How many requests of a batch are still to be served.
pub open spec fn batch_left(batch: Option<Batch>) -> int {
    match batch {
        None => 0,
        Some(batch) => batch.cmds@.len() - batch.next,
    }
}

/// What a connection is in the middle of.
#[derive(Debug)]
pub enum Task {
    /// Nothing.
    Idle,
    /// A request that waits for the time at which it starts.
    Clock { cmd: Json, batch: Option<Batch>, progress: Progress },
    /// A request that waits for the index.
    Command { cmd: Json, batch: Option<Batch>, started: Option<u64>, pending: Pending },
    /// A request that waits for the time at which it ends.
    Finish { cmd: Json, batch: Option<Batch>, from: u64, reply: Json },
    /// An update that waits for the best header.
    Header { last: HeaderEntry, dirty: DirtyScriptHashes, tip_changed: bool },
    /// An update that waits for the history of script `i`.
    Script { notes: Vec<Json>, i: usize, dirty: DirtyScriptHashes, tip_changed: bool },
    /// An update that waits for what is known of unconfirmed parents in the
    /// history of script `i`.
    Parents {
        items: Vec<HistoryItem>,
        notes: Vec<Json>,
        i: usize,
        dirty: DirtyScriptHashes,
        tip_changed: bool,
    },
}

/// A connection at work.
#[derive(Debug)]
pub struct Session {
    pub conn: Connection,
    pub task: Task,
}

impl Session {
    /// The connection is valid, and so is what it is in the middle of.
    pub open spec fn wf(&self) -> bool {
        &&& self.conn.wf()
        &&& match self.task {
            Task::Idle => true,
            Task::Clock { cmd, batch, progress } => command_parts(cmd@) is Some && batch_wf(batch)
                && progress.wf(),
            Task::Command { cmd, batch, started, pending } => command_parts(cmd@) is Some
                && batch_wf(batch) && pending.wf(),
            Task::Finish { cmd, batch, from, reply } => command_parts(cmd@) is Some && batch_wf(
                batch,
            ),
            Task::Header { last, dirty, tip_changed } => true,
            Task::Script { notes, i, dirty, tip_changed } => {
                &&& i < self.conn.status_hashes@.len()
                &&& touched(self.conn.status_hashes@[i as int], dirty@, tip_changed)
            },
            Task::Parents { items, notes, i, dirty, tip_changed } => {
                &&& i < self.conn.status_hashes@.len()
                &&& items@.len() <= MAX_SUMMED_UP
            },
        }
    }

    /// The question that the connection waits for the answer of.
    pub open spec fn question(&self) -> LookupView {
        match self.task {
            Task::Idle => LookupView::Now,
            Task::Clock { cmd, batch, progress } => LookupView::Now,
            Task::Command { cmd, batch, started, pending } => pending.question(),
            Task::Finish { cmd, batch, from, reply } => LookupView::Now,
            Task::Header { last, dirty, tip_changed } => LookupView::BestHeader,
            Task::Script { notes, i, dirty, tip_changed } => LookupView::History(
                self.conn.status_hashes@[i as int].script_hash,
                (self.conn.settings.txs_limit + 1) as usize,
            ),
            Task::Parents { items, notes, i, dirty, tip_changed } => LookupView::UnconfirmedParents(
                mempool_txids(items@),
            ),
        }
    }

    /// What the connection still does, if the next answer is answer `t`.
    #[verifier::opaque]
    pub open spec fn remaining(&self, w: World, t: int) -> Course<bool> {
        let s = self.conn.settings;
        let conn = self.conn@;
        match self.task {
            Task::Idle => finished(conn, true, t),
            Task::Clock { cmd, batch, progress } => preceded(
                seq![Act::Ask(LookupView::Now)],
                continued(
                    s,
                    batch_view(batch),
                    timed(
                        cmd@,
                        served(s, conn, cmd@, Some(w(t).now), progress.run(w, t + 1), w, t + 1),
                    ),
                    w,
                ),
            ),
            Task::Command { cmd, batch, started, pending } => continued(
                s,
                batch_view(batch),
                served(s, conn, cmd@, started, Progress::Ask(pending).run(w, t), w, t),
                w,
            ),
            Task::Finish { cmd, batch, from, reply } => continued(
                s,
                batch_view(batch),
                logged(s, conn, cmd@, Some(from), reply@, w, t),
                w,
            ),
            Task::Header { last, dirty, tip_changed } => notified(
                preceded(
                    seq![Act::Ask(LookupView::BestHeader)],
                    header_checked(s, conn, last@, w(t).best_header, dirty@, tip_changed, w, t + 1),
                ),
            ),
            Task::Script { notes, i, dirty, tip_changed } => notified(
                scan_course(s, conn, json_views(notes@), i as int, dirty@, tip_changed, w, t),
            ),
            Task::Parents { items, notes, i, dirty, tip_changed } => {
                let (conn1, notes1) = status_checked(
                    conn,
                    json_views(notes@),
                    i as int,
                    status_at(items@, w(t)),
                );
                notified(
                    preceded(
                        seq![Act::Ask(LookupView::UnconfirmedParents(mempool_txids(items@)))],
                        scan_course(s, conn1, notes1, i + 1, dirty@, tip_changed, w, t + 1),
                    ),
                )
            },
        }
    }
}

impl Step {
    /// The connection waits for what it says.
    pub open spec fn wf(&self, after: Session) -> bool {
        &&& after.wf()
        &&& match self.next {
            Next::Ask(lookup) => !(after.task is Idle) && lookup@ == after.question(),
            _ => after.task is Idle,
        }
    }

    /// What is done from this step on.
    pub open spec fn course(&self, after: Session, w: World, t: int) -> Course<bool> {
        preceded(
            effect_acts(self.effects@),
            match self.next {
                Next::Ask(_) => after.remaining(w, t),
                Next::Wait => finished(after.conn@, true, t),
                Next::Stop => finished(after.conn@, false, t),
                Next::Close(fault) => faulted(after.conn@, fault@, t),
            },
        )
    }
}

/// Doing nothing first changes nothing.
proof fn lemma_preceded_by_nothing<T>(c: Course<T>)
    ensures
        preceded(Seq::empty(), c) == c,
{
    assert(preceded(Seq::empty(), c) =~= c);
}

/// Two things done first are one after the other.
proof fn lemma_preceded_twice<T>(a: Seq<Act>, b: Seq<Act>, c: Course<T>)
    ensures
        preceded(a, preceded(b, c)) == preceded(a + b, c),
{
    assert(preceded(a, preceded(b, c)) =~= preceded(a + b, c));
}

/// What a request does first, the connection does first.
proof fn lemma_continued_preceded(
    s: Settings,
    batch: Option<(Seq<JsonView>, Seq<JsonView>)>,
    acts: Seq<Act>,
    c: Course<JsonView>,
    w: World,
)
    ensures
        continued(s, batch, preceded(acts, c), w) == preceded(acts, continued(s, batch, c, w)),
{
    assert(continued(s, batch, preceded(acts, c), w) =~= preceded(
        acts,
        continued(s, batch, c, w),
    ));
}

/// What an update does first, the connection does first.
proof fn lemma_notified_preceded(acts: Seq<Act>, c: Course<Seq<JsonView>>)
    ensures
        notified(preceded(acts, c)) == preceded(acts, notified(c)),
{
    assert(notified(preceded(acts, c)) =~= preceded(acts, notified(c)));
}

/// What a command asks first, its request asks first.
proof fn lemma_served_asked(
    s: Settings,
    conn: ConnectionView,
    cmd: JsonView,
    started: Option<u64>,
    lookup: LookupView,
    run: Run,
    w: World,
    t: int,
)
    ensures
        served(s, conn, cmd, started, asked(lookup, run), w, t) == preceded(
            seq![Act::Ask(lookup)],
            served(s, conn, cmd, started, run, w, t + 1),
        ),
{
    let all = asked(lookup, run);
    assert(asking(all.asks) =~= seq![Act::Ask(lookup)] + asking(run.asks));
    assert(t + all.asks.len() == t + 1 + run.asks.len());
    assert(served(s, conn, cmd, started, all, w, t) =~= preceded(
        seq![Act::Ask(lookup)],
        served(s, conn, cmd, started, run, w, t + 1),
    ));
}

/// A value as it is sent.
fn line_of(json: &Json) -> (r: String)
    ensures
        r@ == line(json@),
{
    let mut text: String = render_json(json);
    text.append("\n");
    text
}

/// The method, the parameters and the id of a request.
fn read_command(cmd: &Json) -> (r: Option<(String, Vec<Json>, Json)>)
    ensures
        (match r {
            Some(parts) => command_parts(cmd@) == Some(
                (parts.0@, json_views(parts.1@), parts.2@),
            ),
            None => command_parts(cmd@) is None,
        }),
{
    let params: Json = match cmd.get("params") {
        Some(params) => params.copy(),
        None => {
            let none: Vec<Json> = Vec::new();
            assert(json_views(none@) =~= Seq::empty());
            Json::array(none)
        },
    };
    match (cmd.get("method"), params, cmd.get("id")) {
        (Some(Json::Text(method)), Json::Array(params), Some(id)) => {
            assert(json_view(Json::Array(params))->Array_0 =~= json_views(params@));
            Some((method.clone(), params, id.copy()))
        },
        _ => None,
    }
}

/// The reply to a request.
fn reply_value(id: Json, result: Result<Json, RpcError>) -> (r: Json)
    ensures
        r@ == reply_json(
            id@,
            match result {
                Ok(json) => Ok(json@),
                Err(e) => Err(e@),
            },
        ),
{
    let reply: Json = Json::empty_object().with("jsonrpc", Json::text("2.0")).with("id", id);
    match result {
        Ok(result) => reply.with("result", result),
        Err(e) => reply.with("error", Json::Text(e.message)),
    }
}

/// The number of bytes that encode a value.
fn encoded_size(json: &Json) -> (r: u64)
    ensures
        r == encoded_len(json@),
{
    let text: String = render_json(json);
    text.as_str().as_bytes().len() as u64
}

impl Connection {
    /// The line that logs the reply to a request.
    fn response_line(&self, cmd: &Json, reply: &Json, duration: u64) -> (r: String)
        requires
            self.wf(),
            command_parts(cmd@) is Some,
        ensures
            r@ == event_line(
                self.settings,
                response_event(self.settings, cmd@, reply@, duration),
            ),
    {
        match read_command(cmd) {
            Some((method, params, id)) => {
                let params: Json = if self.settings.rpc_logging.hide_params {
                    Json::Null
                } else {
                    Json::array(params)
                };
                let event: Json = Json::empty_object().with(
                    "event",
                    Json::text("rpc_response"),
                ).with("method", Json::Text(method)).with("params", params).with(
                    "request_size",
                    Json::Unsigned(encoded_size(cmd)),
                ).with("response_size", Json::Unsigned(encoded_size(reply))).with(
                    "duration_micros",
                    Json::Unsigned(duration),
                ).with("id", id);
                self.log_rpc_event(event)
            },
            None => String::new(),
        }
    }

    /// Starts on a request, unless it cannot be served.
    pub fn handle_value(&self, cmd: &Json) -> (r: Result<Progress, Fault>)
        requires
            self.wf(),
        ensures
            (match r {
                Ok(progress) => {
                    &&& progress.wf()
                    &&& command_parts(cmd@) matches Some((method, params, id))
                    &&& forall|w: World, t: int|
                        command_run(self.settings, self@.subscriptions, method, params, w, t)
                            == Some(#[trigger] progress.run(w, t))
                },
                Err(fault) => forall|w: World, t: int|
                    #[trigger] value_course(self.settings, self@, cmd@, w, t) == preceded(
                        attempted(fault@),
                        faulted::<JsonView>(self@, fault@, t),
                    ),
            }),
    {
        reveal(value_course);
        match read_command(cmd) {
            None => {
                proof {
                    assert forall|t: int| #[trigger] preceded(
                        Seq::empty(),
                        faulted::<JsonView>(self@, FaultView::InvalidCommand(cmd@), t),
                    ) == faulted::<JsonView>(self@, FaultView::InvalidCommand(cmd@), t) by {
                        lemma_preceded_by_nothing(
                            faulted::<JsonView>(self@, FaultView::InvalidCommand(cmd@), t),
                        );
                    }
                }
                Err(Fault::InvalidCommand(cmd.copy()))
            },
            Some((method, params, _)) => match self.handle_command(&method, &params) {
                Some(progress) => Ok(progress),
                None => Err(Fault::UnknownMethod(method, params)),
            },
        }
    }
}

/// One more thing to do.
proof fn lemma_effect_pushed(effects: Seq<Effect>, effect: Effect)
    ensures
        effect_acts(effects.push(effect)) == effect_acts(effects) + seq![effect@],
{
    assert(effect_acts(effects.push(effect)) =~= effect_acts(effects) + seq![effect@]);
}

/// A request whose command asks nothing more makes its change, and is logged.
proof fn lemma_served_done(
    s: Settings,
    conn: ConnectionView,
    batch: Option<(Seq<JsonView>, Seq<JsonView>)>,
    cmd: JsonView,
    started: Option<u64>,
    outcome: OutcomeView,
    w: World,
    t: int,
)
    ensures
        continued(
            s,
            batch,
            served(s, conn, cmd, started, Run { asks: Seq::empty(), outcome }, w, t),
            w,
        ) == preceded(
            outcome_acts(conn.subscriptions, cmd, outcome),
            continued(
                s,
                batch,
                logged(
                    s,
                    conn.changed(outcome.change),
                    cmd,
                    started,
                    reply_json((command_parts(cmd)->0).2, outcome.reply),
                    w,
                    t,
                ),
                w,
            ),
        ),
{
    let none = Seq::<LookupView>::empty();
    let acts = outcome_acts(conn.subscriptions, cmd, outcome);
    assert(asking(none) + acts =~= acts);
    lemma_continued_preceded(
        s,
        batch,
        acts,
        logged(
            s,
            conn.changed(outcome.change),
            cmd,
            started,
            reply_json((command_parts(cmd)->0).2, outcome.reply),
            w,
            t,
        ),
        w,
    );
}

/// A request that is done with is replied to.
proof fn lemma_continued_finished(
    s: Settings,
    conn: ConnectionView,
    batch: Option<(Seq<JsonView>, Seq<JsonView>)>,
    reply: JsonView,
    w: World,
    t: int,
)
    ensures
        continued(s, batch, finished(conn, reply, t), w) == reply_course(
            s,
            conn,
            batch,
            reply,
            w,
            t,
        ),
{
    lemma_preceded_by_nothing(reply_course(s, conn, batch, reply, w, t));
}

/// A timer that is started for a request is started by the connection.
proof fn lemma_timed(
    s: Settings,
    batch: Option<(Seq<JsonView>, Seq<JsonView>)>,
    acts: Seq<Act>,
    cmd: JsonView,
    rest: Course<JsonView>,
    w: World,
)
    ensures
        preceded(
            acts + seq![Act::StartTimer((command_parts(cmd)->0).0)],
            continued(s, batch, rest, w),
        ) == preceded(acts, continued(s, batch, timed(cmd, rest), w)),
{
    let start = seq![Act::StartTimer((command_parts(cmd)->0).0)];
    lemma_continued_preceded(s, batch, start, rest, w);
    lemma_preceded_twice(acts, start, continued(s, batch, rest, w));
}

/// Starts to time the command of a request.
fn start_timer(cmd: &Json, effects: &mut Vec<Effect>)
    requires
        command_parts(cmd@) is Some,
    ensures
        effect_acts(final(effects)@) == effect_acts(old(effects)@) + seq![
            Act::StartTimer((command_parts(cmd@)->0).0),
        ],
{
    let ghost before = effects@;
    if let Some(parts) = read_command(cmd) {
        let effect: Effect = Effect::StartTimer(parts.0);
        effects.push(effect);
        proof {
            lemma_effect_pushed(before, effect);
        }
    }
}

/// What is done for a request that cannot be served.
fn attempt_effects(fault: &Fault, effects: &mut Vec<Effect>)
    ensures
        effect_acts(final(effects)@) == effect_acts(old(effects)@) + attempted(fault@),
{
    let ghost before = effects@;
    match fault {
        Fault::UnknownMethod(method, _) => {
            let effect: Effect = Effect::StartTimer(method.clone());
            effects.push(effect);
            proof {
                lemma_effect_pushed(before, effect);
            }
        },
        _ => {
            assert(effect_acts(before) + attempted(fault@) =~= effect_acts(before));
        },
    }
}

impl Connection {
    /// What is done for a change to what the client follows, before it is made.
    fn change_effects(&self, change: &Change, effects: &mut Vec<Effect>)
        ensures
            effect_acts(final(effects)@) == effect_acts(old(effects)@) + change_acts(
                self@.subscriptions,
                change@,
            ),
    {
        let ghost before = effects@;
        let effect: Option<Effect> = match change {
            Change::Rescan => {
                let none: ScriptHashSet = ScriptHashSet::new();
                Some(Effect::Update { dirty: Arc::new(none), tip_changed: true })
            },
            Change::Subscribe(script_hash, _) => match self.position(script_hash) {
                None => Some(Effect::Subscribed),
                Some(_) => None,
            },
            Change::Unsubscribe(script_hash) => match self.position(script_hash) {
                Some(_) => Some(Effect::Unsubscribed),
                None => None,
            },
            _ => None,
        };
        match effect {
            Some(effect) => {
                effects.push(effect);
                proof {
                    lemma_effect_pushed(before, effect);
                    assert(change_acts(self@.subscriptions, change@) =~= seq![effect@]);
                }
            },
            None => {
                proof {
                    let none = change_acts(self@.subscriptions, change@);
                    assert(none =~= Seq::empty());
                    assert(effect_acts(before) + none =~= effect_acts(before));
                }
            },
        }
    }

    /// Logs that the connection begins or ends, if that is logged.
    fn event_effects(&self, name: &str, effects: &mut Vec<Effect>)
        requires
            self.wf(),
        ensures
            effect_acts(final(effects)@) == effect_acts(old(effects)@) + event_acts(
                self.settings,
                name@,
            ),
    {
        let ghost before = effects@;
        match self.connection_event(name) {
            Some(text) => {
                let effect: Effect = Effect::Log(text);
                effects.push(effect);
                proof {
                    lemma_effect_pushed(before, effect);
                }
            },
            None => {
                assert(effect_acts(before) + event_acts(self.settings, name@) =~= effect_acts(
                    before,
                ));
            },
        }
    }

    /// What is done when the command of a request has come to its end.
    fn outcome_effects(&self, cmd: &Json, outcome: &Outcome, effects: &mut Vec<Effect>)
        requires
            command_parts(cmd@) is Some,
        ensures
            effect_acts(final(effects)@) == effect_acts(old(effects)@) + outcome_acts(
                self@.subscriptions,
                cmd@,
                outcome@,
            ),
    {
        let ghost given = effects@;
        let ghost acts = change_acts(self@.subscriptions, outcome.change@);
        self.change_effects(&outcome.change, effects);
        let ghost before = effects@;
        effects.push(Effect::StopTimer);
        proof {
            lemma_effect_pushed(before, Effect::StopTimer);
        }
        if let (Err(e), Some(parts)) = (&outcome.reply, read_command(cmd)) {
            let ghost before = effects@;
            let effect: Effect = Effect::Failed(parts.2, parts.0, parts.1, e.copy());
            effects.push(effect);
            proof {
                lemma_effect_pushed(before, effect);
            }
        }
        assert(effect_acts(effects@) =~= effect_acts(given) + outcome_acts(
            self@.subscriptions,
            cmd@,
            outcome@,
        ));
    }
}

impl Session {
    /// Goes on with a request whose command has come so far.
    fn command_step(
        &mut self,
        cmd: Json,
        batch: Option<Batch>,
        started: Option<u64>,
        progress: Progress,
        effects: Vec<Effect>,
    ) -> (r: Step)
        requires
            old(self).conn.wf(),
            command_parts(cmd@) is Some,
            batch_wf(batch),
            progress.wf(),
        ensures
            r.wf(*final(self)),
            final(self).conn.settings == old(self).conn.settings,
            forall|w: World, t: int|
                #[trigger] r.course(*final(self), w, t) == preceded(
                    effect_acts(effects@),
                    continued(
                        old(self).conn.settings,
                        batch_view(batch),
                        served(
                            old(self).conn.settings,
                            old(self).conn@,
                            cmd@,
                            started,
                            progress.run(w, t),
                            w,
                            t,
                        ),
                        w,
                    ),
                ),
        decreases batch_left(batch), 2nat,
    {
        let ghost s = self.conn.settings;
        let ghost conn = self.conn@;
        match progress {
            Progress::Ask(pending) => {
                let lookup: Lookup = pending.lookup();
                self.task = Task::Command { cmd, batch, started, pending };
                proof {
                    reveal(Session::remaining);
                }
                Step { effects, next: Next::Ask(lookup) }
            },
            Progress::Done(outcome) => {
                let id: Json = match read_command(&cmd) {
                    Some(parts) => parts.2,
                    None => Json::Null,
                };
                let ghost before = effects@;
                let ghost acts = outcome_acts(conn.subscriptions, cmd@, outcome@);
                let mut effects: Vec<Effect> = effects;
                self.conn.outcome_effects(&cmd, &outcome, &mut effects);
                self.conn.apply(outcome.change);
                let reply: Json = reply_value(id, outcome.reply);
                proof {
                    assert forall|w: World, t: int|
                        preceded(
                            effect_acts(before),
                            continued(
                                s,
                                batch_view(batch),
                                #[trigger] served(s, conn, cmd@, started, progress.run(w, t), w, t),
                                w,
                            ),
                        ) == preceded(
                            effect_acts(effects@),
                            continued(
                                s,
                                batch_view(batch),
                                logged(s, self.conn@, cmd@, started, reply@, w, t),
                                w,
                            ),
                        ) by {
                        lemma_served_done(
                            s,
                            conn,
                            batch_view(batch),
                            cmd@,
                            started,
                            outcome@,
                            w,
                            t,
                        );
                        lemma_preceded_twice(
                            effect_acts(before),
                            acts,
                            continued(
                                s,
                                batch_view(batch),
                                logged(s, self.conn@, cmd@, started, reply@, w, t),
                                w,
                            ),
                        );
                    }
                    assert forall|w: World, t: int| started is None implies #[trigger] continued(
                        s,
                        batch_view(batch),
                        logged(s, self.conn@, cmd@, started, reply@, w, t),
                        w,
                    ) == reply_course(s, self.conn@, batch_view(batch), reply@, w, t) by {
                        lemma_continued_finished(s, self.conn@, batch_view(batch), reply@, w, t);
                    }
                }
                match started {
                    Some(from) => {
                        self.task = Task::Finish { cmd, batch, from, reply };
                        proof {
                            reveal(Session::remaining);
                        }
                        Step { effects, next: Next::Ask(Lookup::Now) }
                    },
                    None => self.reply_step(batch, reply, effects),
                }
            },
        }
    }

    /// Sends the reply to a request, or goes on with the rest of its batch.
    fn reply_step(
        &mut self,
        batch: Option<Batch>,
        reply: Json,
        effects: Vec<Effect>,
    ) -> (r: Step)
        requires
            old(self).conn.wf(),
            batch_wf(batch),
        ensures
            r.wf(*final(self)),
            final(self).conn.settings == old(self).conn.settings,
            forall|w: World, t: int|
                #[trigger] r.course(*final(self), w, t) == preceded(
                    effect_acts(effects@),
                    reply_course(
                        old(self).conn.settings,
                        old(self).conn@,
                        batch_view(batch),
                        reply@,
                        w,
                        t,
                    ),
                ),
        decreases batch_left(batch), 1nat,
    {
        match batch {
            None => self.send_step(&reply, effects),
            Some(batch) => {
                let mut batch: Batch = batch;
                let ghost before = batch.replies@;
                batch.replies.push(reply);
                assert(json_views(batch.replies@) =~= json_views(before).push(reply@));
                self.batch_step(batch, effects)
            },
        }
    }

    /// Sends a value to the client, and is idle.
    fn send_step(&mut self, json: &Json, effects: Vec<Effect>) -> (r: Step)
        requires
            old(self).conn.wf(),
        ensures
            r.wf(*final(self)),
            final(self).conn.settings == old(self).conn.settings,
            forall|w: World, t: int|
                #[trigger] r.course(*final(self), w, t) == preceded(
                    effect_acts(effects@),
                    sent(old(self).conn@, json@, t),
                ),
    {
        let ghost before = effects@;
        let mut effects: Vec<Effect> = effects;
        let effect: Effect = Effect::Send(line_of(json));
        effects.push(effect);
        self.task = Task::Idle;
        let r: Step = Step { effects, next: Next::Wait };
        proof {
            lemma_effect_pushed(before, effect);
            assert forall|w: World, t: int|
                #[trigger] r.course(*self, w, t) == preceded(
                    effect_acts(before),
                    sent(self.conn@, json@, t),
                ) by {
                lemma_preceded_twice(
                    effect_acts(before),
                    seq![effect@],
                    finished(self.conn@, true, t),
                );
            }
        }
        r
    }

    /// Serves the rest of a batch.
    fn batch_step(&mut self, batch: Batch, effects: Vec<Effect>) -> (r: Step)
        requires
            old(self).conn.wf(),
            batch.wf(),
        ensures
            r.wf(*final(self)),
            final(self).conn.settings == old(self).conn.settings,
            forall|w: World, t: int|
                #[trigger] r.course(*final(self), w, t) == preceded(
                    effect_acts(effects@),
                    batch_course(
                        old(self).conn.settings,
                        old(self).conn@,
                        json_views(batch.cmds@).skip(batch.next as int),
                        json_views(batch.replies@),
                        w,
                        t,
                    ),
                ),
        decreases batch.cmds@.len() - batch.next, 0nat,
    {
        let ghost cmds = json_views(batch.cmds@);
        let ghost next = batch.next as int;
        let ghost replies = json_views(batch.replies@);
        reveal(batch_course);
        if batch.next == batch.cmds.len() {
            self.send_step(&Json::array(batch.replies), effects)
        } else {
            let mut batch: Batch = batch;
            let cmd: Json = batch.cmds[batch.next].copy();
            batch.next = batch.next + 1;
            proof {
                assert(cmds.skip(next)[0] == cmd@);
                assert(cmds.skip(next).drop_first() =~= cmds.skip(next + 1));
                assert(batch_view(Some(batch)) == Some((cmds.skip(next + 1), replies)));
            }
            self.value_step(cmd, Some(batch), effects)
        }
    }

    /// Serves a request.
    fn value_step(&mut self, cmd: Json, batch: Option<Batch>, effects: Vec<Effect>) -> (r: Step)
        requires
            old(self).conn.wf(),
            batch_wf(batch),
        ensures
            r.wf(*final(self)),
            final(self).conn.settings == old(self).conn.settings,
            forall|w: World, t: int|
                #[trigger] r.course(*final(self), w, t) == preceded(
                    effect_acts(effects@),
                    continued(
                        old(self).conn.settings,
                        batch_view(batch),
                        value_course(old(self).conn.settings, old(self).conn@, cmd@, w, t),
                        w,
                    ),
                ),
        decreases batch_left(batch), 3nat,
    {
        match self.conn.handle_value(&cmd) {
            Err(fault) => {
                let ghost before = effects@;
                let mut effects: Vec<Effect> = effects;
                attempt_effects(&fault, &mut effects);
                self.task = Task::Idle;
                let r: Step = Step { effects, next: Next::Close(fault) };
                proof {
                    let conn = self.conn@;
                    assert forall|w: World, t: int|
                        #[trigger] r.course(*self, w, t) == preceded(
                            effect_acts(before),
                            continued(
                                self.conn.settings,
                                batch_view(batch),
                                value_course(self.conn.settings, conn, cmd@, w, t),
                                w,
                            ),
                        ) by {
                        let rest = faulted::<JsonView>(conn, fault@, t);
                        lemma_continued_preceded(
                            self.conn.settings,
                            batch_view(batch),
                            attempted(fault@),
                            rest,
                            w,
                        );
                        lemma_preceded_twice(
                            effect_acts(before),
                            attempted(fault@),
                            faulted::<bool>(conn, fault@, t),
                        );
                    }
                }
                r
            },
            Ok(progress) => if self.conn.settings.rpc_logging.enabled {
                let ghost s = self.conn.settings;
                let ghost conn = self.conn@;
                self.task = Task::Clock { cmd, batch, progress };
                proof {
                    assert forall|w: World, t: int|
                        continued(
                            s,
                            batch_view(batch),
                            #[trigger] value_course(s, conn, cmd@, w, t),
                            w,
                        ) == self.remaining(w, t) by {
                        reveal(value_course);
                        reveal(Session::remaining);
                        let run = progress.run(w, t + 1);
                        lemma_continued_preceded(
                            s,
                            batch_view(batch),
                            seq![Act::Ask(LookupView::Now)],
                            timed(cmd@, served(s, conn, cmd@, Some(w(t).now), run, w, t + 1)),
                            w,
                        );
                    }
                }
                Step { effects, next: Next::Ask(Lookup::Now) }
            } else {
                let ghost s = self.conn.settings;
                let ghost conn = self.conn@;
                let ghost before = effects@;
                let mut effects: Vec<Effect> = effects;
                start_timer(&cmd, &mut effects);
                let r: Step = self.command_step(cmd, batch, None, progress, effects);
                proof {
                    assert forall|w: World, t: int|
                        #[trigger] r.course(*self, w, t) == preceded(
                            effect_acts(before),
                            continued(
                                s,
                                batch_view(batch),
                                value_course(s, conn, cmd@, w, t),
                                w,
                            ),
                        ) by {
                        reveal(value_course);
                        let rest = served(s, conn, cmd@, None, progress.run(w, t), w, t);
                        lemma_timed(s, batch_view(batch), effect_acts(before), cmd@, rest, w);
                    }
                }
                r
            },
        }
    }
}

/// Whether two hashes of a history are the same.
fn same_status(a: &Option<FullHash>, b: &Option<FullHash>) -> (r: bool)
    ensures
        r == (*a == *b),
{
    match (a, b) {
        (None, None) => true,
        (Some(a), Some(b)) => same_hash(a, b),
        _ => false,
    }
}

/// Something that the client is told unasked.
fn note_value(method: &str, params: Vec<Json>) -> (r: Json)
    ensures
        r@ == note_json(method@, json_views(params@)),
{
    Json::empty_object().with("jsonrpc", Json::text("2.0")).with("method", Json::text(method)).with(
        "params",
        Json::array(params),
    )
}

/// The note that the best header changed.
fn header_note_value(entry: &HeaderEntry) -> (r: Json)
    ensures
        r@ == header_note(entry@),
{
    let mut params: Vec<Json> = Vec::new();
    params.push(header_entry_value(entry));
    assert(json_views(params@) =~= seq![header_entry_json(entry@)]);
    note_value("blockchain.headers.subscribe", params)
}

/// The note that the history of a script changed.
fn status_note_value(script_hash: &FullHash, status_hash: &Option<FullHash>) -> (r: Json)
    ensures
        r@ == status_note(*script_hash, *status_hash),
{
    let mut params: Vec<Json> = Vec::new();
    params.push(hash_value(script_hash));
    params.push(status_value(status_hash));
    assert(json_views(params@) =~= seq![hash_json(*script_hash), status_json(*status_hash)]);
    note_value("blockchain.scripthash.subscribe", params)
}

/// An update checks a script: it is in `dirty`, or there is a new block.
pub open spec fn touched(
    subscription: Subscription,
    dirty: Set<FullHash>,
    tip_changed: bool,
) -> bool {
    tip_changed || dirty.contains(subscription.script_hash)
}

impl Connection {
    /// The first script from script `i` on that an update checks.
    fn next_touched(&self, i: usize, dirty: &ScriptHashSet, tip_changed: bool) -> (r: usize)
        requires
            i <= self.status_hashes@.len(),
        ensures
            i <= r <= self.status_hashes@.len(),
            forall|j: int|
                i <= j < r ==> !touched(#[trigger] self.status_hashes@[j], dirty@, tip_changed),
            r < self.status_hashes@.len() ==> touched(
                self.status_hashes@[r as int],
                dirty@,
                tip_changed,
            ),
    {
        let mut j: usize = i;
        while j < self.status_hashes.len()
            invariant
                i <= j <= self.status_hashes@.len(),
                forall|k: int|
                    i <= k < j ==> !touched(#[trigger] self.status_hashes@[k], dirty@, tip_changed),
            decreases self.status_hashes@.len() - j,
        {
            let script_hash: FullHash = full_hash(self.status_hashes[j].script_hash.as_slice());
            assert(script_hash =~= self.status_hashes@[j as int].script_hash);
            if tip_changed || dirty.contains(&script_hash) {
                return j;
            }
            j = j + 1;
        }
        j
    }
}

/// An update passes over scripts that it does not check.
proof fn lemma_scan_skips(
    s: Settings,
    conn: ConnectionView,
    notes: Seq<JsonView>,
    i: int,
    j: int,
    dirty: Set<FullHash>,
    tip_changed: bool,
    w: World,
    t: int,
)
    requires
        0 <= i <= j <= conn.subscriptions.len(),
        forall|k: int|
            i <= k < j ==> !touched(#[trigger] conn.subscriptions[k], dirty, tip_changed),
    ensures
        scan_course(s, conn, notes, i, dirty, tip_changed, w, t) == scan_course(
            s,
            conn,
            notes,
            j,
            dirty,
            tip_changed,
            w,
            t,
        ),
    decreases j - i,
{
    if i < j {
        reveal(scan_course);
        assert(!touched(conn.subscriptions[i], dirty, tip_changed));
        lemma_scan_skips(s, conn, notes, i + 1, j, dirty, tip_changed, w, t);
    }
}

impl Session {
    /// Sends notes to the client, and is idle.
    fn notes_step(&mut self, notes: &Vec<Json>) -> (r: Step)
        requires
            old(self).conn.wf(),
        ensures
            r.wf(*final(self)),
            final(self).conn.settings == old(self).conn.settings,
            forall|w: World, t: int|
                #[trigger] r.course(*final(self), w, t) == notified(
                    finished(old(self).conn@, json_views(notes@), t),
                ),
    {
        let mut effects: Vec<Effect> = Vec::new();
        effects.push(Effect::StopTimer);
        let mut k: usize = 0;
        while k < notes.len()
            invariant
                k <= notes@.len(),
                effects@.len() == k + 1,
                effects@[0] == Effect::StopTimer,
                forall|j: int|
                    1 <= j <= k ==> (#[trigger] effects@[j])@ == Act::Send(line(notes@[j - 1]@)),
            decreases notes@.len() - k,
        {
            effects.push(Effect::Send(line_of(&notes[k])));
            k = k + 1;
        }
        self.task = Task::Idle;
        let r: Step = Step { effects, next: Next::Wait };
        proof {
            let all = json_views(notes@);
            assert(effect_acts(effects@) =~= seq![Act::StopTimer] + all.map_values(
                |note: JsonView| Act::Send(line(note)),
            ));
            assert forall|w: World, t: int|
                #[trigger] r.course(*self, w, t) == notified(finished(self.conn@, all, t)) by {
                lemma_preceded_by_nothing(r.course(*self, w, t));
            }
        }
        r
    }

    /// Checks the scripts from script `i` on.
    fn scan_step(
        &mut self,
        notes: Vec<Json>,
        i: usize,
        dirty: DirtyScriptHashes,
        tip_changed: bool,
    ) -> (r: Step)
        requires
            old(self).conn.wf(),
            i <= old(self).conn.status_hashes@.len(),
        ensures
            r.wf(*final(self)),
            final(self).conn.settings == old(self).conn.settings,
            forall|w: World, t: int|
                #[trigger] r.course(*final(self), w, t) == notified(
                    scan_course(
                        old(self).conn.settings,
                        old(self).conn@,
                        json_views(notes@),
                        i as int,
                        dirty@,
                        tip_changed,
                        w,
                        t,
                    ),
                ),
    {
        let ghost s = self.conn.settings;
        let ghost conn = self.conn@;
        let ghost first = i as int;
        let i: usize = self.conn.next_touched(i, &dirty, tip_changed);
        proof {
            assert forall|w: World, t: int|
                #[trigger] scan_course(
                    s,
                    conn,
                    json_views(notes@),
                    first,
                    dirty@,
                    tip_changed,
                    w,
                    t,
                ) == scan_course(
                    s,
                    conn,
                    json_views(notes@),
                    i as int,
                    dirty@,
                    tip_changed,
                    w,
                    t,
                ) by {
                lemma_scan_skips(
                    s,
                    conn,
                    json_views(notes@),
                    first,
                    i as int,
                    dirty@,
                    tip_changed,
                    w,
                    t,
                );
            }
        }
        if i < self.conn.status_hashes.len() {
            let lookup: Lookup = Lookup::History(
                self.conn.status_hashes[i].script_hash,
                self.conn.settings.txs_limit + 1,
            );
            self.task = Task::Script { notes, i, dirty, tip_changed };
            let r: Step = Step { effects: Vec::new(), next: Next::Ask(lookup) };
            proof {
                assert(effect_acts(r.effects@) =~= Seq::empty());
                reveal(Session::remaining);
                assert forall|w: World, t: int|
                    #[trigger] r.course(*self, w, t) == self.remaining(w, t) by {
                    lemma_preceded_by_nothing(self.remaining(w, t));
                }
            }
            return r;
        }
        reveal(scan_course);
        self.notes_step(&notes)
    }
}

impl Connection {
    /// Takes the hash of the history of script `i` down, with a note where it is
    /// another one than before.
    fn check_status(&mut self, i: usize, status_hash: Option<FullHash>, notes: &mut Vec<Json>)
        requires
            old(self).wf(),
            i < old(self).status_hashes@.len(),
        ensures
            final(self).wf(),
            final(self).settings == old(self).settings,
            (final(self)@, json_views(final(notes)@)) == status_checked(
                old(self)@,
                json_views(old(notes)@),
                i as int,
                status_hash,
            ),
    {
        let ghost before = self.status_hashes@;
        let ghost noted = notes@;
        let script_hash: FullHash = self.status_hashes[i].script_hash;
        if !same_status(&status_hash, &self.status_hashes[i].status_hash) {
            let note: Json = status_note_value(&script_hash, &status_hash);
            notes.push(note);
            self.status_hashes.set(i, Subscription { script_hash, status_hash });
            proof {
                assert(json_views(notes@) =~= json_views(noted).push(note@));
                assert forall|a: int, b: int| 0 <= a < b < self.status_hashes@.len() implies (
                #[trigger] self.status_hashes@[a]).script_hash != (
                #[trigger] self.status_hashes@[b]).script_hash by {
                    assert(before[a].script_hash != before[b].script_hash);
                }
            }
        }
    }
}

impl Session {
    /// Goes on with an update when the hash of the history of script `i` is known.
    fn status_step(
        &mut self,
        status_hash: Option<FullHash>,
        notes: Vec<Json>,
        i: usize,
        dirty: DirtyScriptHashes,
        tip_changed: bool,
    ) -> (r: Step)
        requires
            old(self).conn.wf(),
            i < old(self).conn.status_hashes@.len(),
        ensures
            r.wf(*final(self)),
            final(self).conn.settings == old(self).conn.settings,
            forall|w: World, t: int|
                #[trigger] r.course(*final(self), w, t) == notified(
                    ({
                        let (conn1, notes1) = status_checked(
                            old(self).conn@,
                            json_views(notes@),
                            i as int,
                            status_hash,
                        );
                        scan_course(
                            old(self).conn.settings,
                            conn1,
                            notes1,
                            i + 1,
                            dirty@,
                            tip_changed,
                            w,
                            t,
                        )
                    }),
                ),
    {
        let mut notes: Vec<Json> = notes;
        self.conn.check_status(i, status_hash, &mut notes);
        let count: usize = self.conn.status_hashes.len();
        assert(i < count);
        self.scan_step(notes, i + 1, dirty, tip_changed)
    }

    /// Goes on with an update when the history of script `i` is known.
    fn history_step(
        &mut self,
        items: Vec<HistoryItem>,
        notes: Vec<Json>,
        i: usize,
        dirty: DirtyScriptHashes,
        tip_changed: bool,
    ) -> (r: Step)
        requires
            old(self).conn.wf(),
            i < old(self).conn.status_hashes@.len(),
            items@.len() <= MAX_SUMMED_UP,
            touched(old(self).conn.status_hashes@[i as int], dirty@, tip_changed),
        ensures
            r.wf(*final(self)),
            final(self).conn.settings == old(self).conn.settings,
            forall|w: World, t: int|
                (w(t).history)(
                    old(self).conn.status_hashes@[i as int].script_hash,
                    (old(self).conn.settings.txs_limit + 1) as usize,
                ) == items@ ==> #[trigger] notified(
                    scan_course(
                        old(self).conn.settings,
                        old(self).conn@,
                        json_views(notes@),
                        i as int,
                        dirty@,
                        tip_changed,
                        w,
                        t,
                    ),
                ) == preceded(
                    seq![
                        Act::Ask(
                            LookupView::History(
                                old(self).conn.status_hashes@[i as int].script_hash,
                                (old(self).conn.settings.txs_limit + 1) as usize,
                            ),
                        ),
                    ],
                    r.course(*final(self), w, t + 1),
                ),
    {
        let ghost s = self.conn.settings;
        let ghost conn = self.conn@;
        let ghost noted = json_views(notes@);
        let ghost limit = (s.txs_limit + 1) as usize;
        let ghost script_hash = conn.subscriptions[i as int].script_hash;
        let ghost ask = seq![Act::Ask(LookupView::History(script_hash, limit))];
        let items: Vec<HistoryItem> = match get_history(items, self.conn.settings.txs_limit) {
            Err(e) => {
                self.task = Task::Idle;
                let r: Step = Step {
                    effects: Vec::new(),
                    next: Next::Close(Fault::UpdateFailed(e)),
                };
                proof {
                    assert(effect_acts(r.effects@) =~= Seq::empty());
                    assert forall|w: World, t: int|
                        (w(t).history)(script_hash, limit) == items@ implies #[trigger] notified(
                        scan_course(s, conn, noted, i as int, dirty@, tip_changed, w, t),
                    ) == preceded(ask, r.course(*self, w, t + 1)) by {
                        reveal(scan_course);
                        let fault = FaultView::UpdateFailed(too_popular());
                        let rest = faulted::<Seq<JsonView>>(conn, fault, t + 1);
                        lemma_notified_preceded(ask, rest);
                        lemma_preceded_by_nothing(faulted::<bool>(conn, fault, t + 1));
                    }
                }
                return r;
            },
            Ok(items) => items,
        };
        if list_mempool_txids(&items).is_empty() {
            let no_flags: Vec<bool> = Vec::new();
            let status_hash: Option<FullHash> = get_status_hash(&items, &no_flags);
            let r: Step = self.status_step(status_hash, notes, i, dirty, tip_changed);
            proof {
                assert forall|w: World, t: int|
                    (w(t).history)(script_hash, limit) == items@ implies #[trigger] notified(
                    scan_course(s, conn, noted, i as int, dirty@, tip_changed, w, t),
                ) == preceded(ask, r.course(*self, w, t + 1)) by {
                    reveal(scan_course);
                    assert(mempool_txids(items@).map_values(w(t + 1).unconfirmed_parents)
                        =~= no_flags@);
                    assert(asking(status_asks(items@)) =~= Seq::empty());
                    let (conn1, notes1) = status_checked(conn, noted, i as int, status_hash);
                    let rest = scan_course(
                        s,
                        conn1,
                        notes1,
                        i + 1,
                        dirty@,
                        tip_changed,
                        w,
                        t + 1,
                    );
                    lemma_preceded_by_nothing(rest);
                    lemma_notified_preceded(ask, rest);
                }
            }
            r
        } else {
            let lookup: Lookup = Lookup::UnconfirmedParents(list_mempool_txids(&items));
            self.task = Task::Parents { items, notes, i, dirty, tip_changed };
            let r: Step = Step { effects: Vec::new(), next: Next::Ask(lookup) };
            proof {
                assert(effect_acts(r.effects@) =~= Seq::empty());
                assert forall|w: World, t: int|
                    (w(t).history)(script_hash, limit) == items@ implies #[trigger] notified(
                    scan_course(s, conn, noted, i as int, dirty@, tip_changed, w, t),
                ) == preceded(ask, r.course(*self, w, t + 1)) by {
                    reveal(scan_course);
                    reveal(Session::remaining);
                    let asks = seq![Act::Ask(lookup@)];
                    assert(asking(status_asks(items@)) =~= asks);
                    let (conn1, notes1) = status_checked(
                        conn,
                        noted,
                        i as int,
                        status_at(items@, w(t + 1)),
                    );
                    let rest = scan_course(
                        s,
                        conn1,
                        notes1,
                        i + 1,
                        dirty@,
                        tip_changed,
                        w,
                        t + 2,
                    );
                    lemma_notified_preceded(ask, preceded(asks, rest));
                    lemma_preceded_by_nothing(self.remaining(w, t + 1));
                }
            }
            r
        }
    }

    /// Checks the scripts, unless nothing changed.
    fn scripts_step(
        &mut self,
        notes: Vec<Json>,
        dirty: DirtyScriptHashes,
        tip_changed: bool,
    ) -> (r: Step)
        requires
            old(self).conn.wf(),
        ensures
            r.wf(*final(self)),
            final(self).conn.settings == old(self).conn.settings,
            forall|w: World, t: int|
                #[trigger] r.course(*final(self), w, t) == notified(
                    scripts_course(
                        old(self).conn.settings,
                        old(self).conn@,
                        json_views(notes@),
                        dirty@,
                        tip_changed,
                        w,
                        t,
                    ),
                ),
    {
        if !tip_changed && dirty.is_empty() {
            self.notes_step(&notes)
        } else {
            self.scan_step(notes, 0, dirty, tip_changed)
        }
    }

    /// Goes on with an update when the best header is known.
    fn header_step(
        &mut self,
        last: HeaderEntry,
        entry: HeaderEntry,
        dirty: DirtyScriptHashes,
        tip_changed: bool,
    ) -> (r: Step)
        requires
            old(self).conn.wf(),
        ensures
            r.wf(*final(self)),
            final(self).conn.settings == old(self).conn.settings,
            forall|w: World, t: int|
                #[trigger] r.course(*final(self), w, t) == notified(
                    header_checked(
                        old(self).conn.settings,
                        old(self).conn@,
                        last@,
                        entry@,
                        dirty@,
                        tip_changed,
                        w,
                        t,
                    ),
                ),
    {
        let mut notes: Vec<Json> = Vec::new();
        if !entry.same(&last) {
            notes.push(header_note_value(&entry));
            assert(json_views(notes@) =~= seq![header_note(entry@)]);
        } else {
            assert(json_views(notes@) =~= Seq::empty());
        }
        self.conn.apply(Change::Follow(entry));
        self.scripts_step(notes, dirty, tip_changed)
    }

    /// Starts on an update: the best header and then the scripts in `dirty`, or
    /// all of them if there is a new block, are checked where the client follows
    /// them, and it is told what changed.
    pub fn update_subscriptions(&mut self, dirty: DirtyScriptHashes, tip_changed: bool) -> (r: Step)
        requires
            old(self).wf(),
            old(self).task is Idle,
        ensures
            r.wf(*final(self)),
            final(self).conn.settings == old(self).conn.settings,
            forall|w: World, t: int|
                #[trigger] r.course(*final(self), w, t) == periodic_course(
                    old(self).conn.settings,
                    old(self).conn@,
                    dirty@,
                    tip_changed,
                    w,
                    t,
                ),
    {
        let ghost s = self.conn.settings;
        let ghost conn = self.conn@;
        let timer: Effect = Effect::StartTimer("periodic_update".to_string());
        match &self.conn.last_header_entry {
            None => {
                let notes: Vec<Json> = Vec::new();
                assert(json_views(notes@) =~= Seq::empty());
                let rest: Step = self.scripts_step(notes, dirty, tip_changed);
                let ghost after = rest;
                let mut effects: Vec<Effect> = rest.effects;
                effects.insert(0, timer);
                let r: Step = Step { effects, next: rest.next };
                proof {
                    assert(effect_acts(effects@) =~= seq![timer@] + effect_acts(after.effects@));
                    assert forall|w: World, t: int|
                        #[trigger] r.course(*self, w, t) == periodic_course(
                            s,
                            conn,
                            dirty@,
                            tip_changed,
                            w,
                            t,
                        ) by {
                        let course = after.course(*self, w, t);
                        assert(r.course(*self, w, t) =~= preceded(seq![timer@], course));
                    }
                }
                r
            },
            Some(last) => {
                let last: HeaderEntry = last.copy();
                self.task = Task::Header { last, dirty, tip_changed };
                let mut effects: Vec<Effect> = Vec::new();
                effects.push(timer);
                let r: Step = Step { effects, next: Next::Ask(Lookup::BestHeader) };
                proof {
                    assert(effect_acts(effects@) =~= seq![timer@]);
                    reveal(Session::remaining);
                }
                r
            },
        }
    }

    /// What is done when the client connects.
    pub fn open(&self) -> (r: Vec<Effect>)
        requires
            self.wf(),
        ensures
            effect_acts(r@) == opened(self.conn.settings),
    {
        let mut effects: Vec<Effect> = Vec::new();
        effects.push(Effect::Connected);
        assert(effect_acts(effects@) =~= seq![Act::Connected]);
        self.conn.event_effects("connection_established", &mut effects);
        effects
    }

    /// What is done when the connection ends, however it ends.
    pub fn close(&self) -> (r: Vec<Effect>)
        requires
            self.wf(),
        ensures
            effect_acts(r@) == closed(self.conn.settings, self.conn@),
    {
        let mut effects: Vec<Effect> = Vec::new();
        effects.push(Effect::Disconnected);
        let count: usize = self.conn.status_hashes.len();
        effects.push(Effect::Forgotten(count));
        assert(effect_acts(effects@) =~= seq![Act::Disconnected, Act::Forgotten(count as int)]);
        self.conn.event_effects("connection_closed", &mut effects);
        effects
    }

    /// A connection that is not at work.
    pub fn new(settings: Settings) -> (r: Session)
        requires
            settings.wf(),
        ensures
            r.wf(),
            r.task is Idle,
            r.conn.settings == settings,
            r.conn@ == (ConnectionView { last_header_entry: None, subscriptions: Seq::empty() }),
    {
        Session { conn: Connection::new(settings), task: Task::Idle }
    }

    /// Starts on what a line from the client says, if it is JSON.
    pub fn handle_request(&mut self, request: Result<Json, String>) -> (r: Step)
        requires
            old(self).wf(),
            old(self).task is Idle,
        ensures
            r.wf(*final(self)),
            final(self).conn.settings == old(self).conn.settings,
            forall|w: World, t: int|
                #[trigger] r.course(*final(self), w, t) == request_course(
                    old(self).conn.settings,
                    old(self).conn@,
                    parsed(request),
                    w,
                    t,
                ),
    {
        let effects: Vec<Effect> = Vec::new();
        proof {
            assert(effect_acts(effects@) =~= Seq::empty());
            assert forall|c: Course<bool>| #[trigger] preceded(Seq::empty(), c) == c by {
                lemma_preceded_by_nothing(c);
            }
        }
        match request {
            Err(cause) => Step { effects, next: Next::Close(Fault::InvalidJson(cause)) },
            Ok(Json::Array(cmds)) => {
                assert(json_view(Json::Array(cmds))->Array_0 =~= json_views(cmds@));
                if cmds.len() > MAX_ARRAY_BATCH {
                    let fault: Fault = Fault::TooManyElements(cmds.len());
                    return Step { effects, next: Next::Close(fault) };
                }
                let batch: Batch = Batch { cmds, next: 0, replies: Vec::new() };
                proof {
                    assert(json_views(cmds@).skip(0) =~= json_views(cmds@));
                    assert(json_views(batch.replies@) =~= Seq::empty());
                }
                self.batch_step(batch, effects)
            },
            Ok(cmd) => self.value_step(cmd, None, effects),
        }
    }

    /// Starts on a message.
    pub fn handle_replies(&mut self, message: Message) -> (r: Step)
        requires
            old(self).wf(),
            old(self).task is Idle,
        ensures
            r.wf(*final(self)),
            final(self).conn.settings == old(self).conn.settings,
            forall|w: World, t: int|
                #[trigger] r.course(*final(self), w, t) == message_course(
                    old(self).conn.settings,
                    old(self).conn@,
                    message,
                    w,
                    t,
                ),
    {
        match message {
            Message::Request(text) => self.handle_request(parse_json(text.as_str())),
            Message::PeriodicUpdate { dirty, tip_changed } => self.update_subscriptions(
                dirty,
                tip_changed,
            ),
            Message::Done => {
                let r: Step = Step { effects: Vec::new(), next: Next::Stop };
                proof {
                    assert(effect_acts(r.effects@) =~= Seq::empty());
                    assert forall|w: World, t: int|
                        #[trigger] r.course(*self, w, t) == finished(self.conn@, false, t) by {
                        lemma_preceded_by_nothing(finished(self.conn@, false, t));
                    }
                }
                r
            },
        }
    }
}

impl Session {
    /// Goes on with the answer to a request's question.
    fn command_answered(
        &mut self,
        cmd: Json,
        batch: Option<Batch>,
        started: Option<u64>,
        pending: Pending,
        answer: Answer,
    ) -> (r: Step)
        requires
            old(self).conn.wf(),
            command_parts(cmd@) is Some,
            batch_wf(batch),
            pending.wf(),
            fits(pending.question(), answer),
        ensures
            r.wf(*final(self)),
            final(self).conn.settings == old(self).conn.settings,
            forall|w: World, t: int|
                gives(w(t), pending.question(), answer) ==> #[trigger] continued(
                    old(self).conn.settings,
                    batch_view(batch),
                    served(
                        old(self).conn.settings,
                        old(self).conn@,
                        cmd@,
                        started,
                        Progress::Ask(pending).run(w, t),
                        w,
                        t,
                    ),
                    w,
                ) == preceded(
                    seq![Act::Ask(pending.question())],
                    r.course(*final(self), w, t + 1),
                ),
    {
        let ghost s = self.conn.settings;
        let ghost conn = self.conn@;
        let progress: Progress = pending.resume(answer);
        let effects: Vec<Effect> = Vec::new();
        assert(effect_acts(effects@) =~= Seq::empty());
        let r: Step = self.command_step(cmd, batch, started, progress, effects);
        proof {
            let ask = pending.question();
            assert forall|w: World, t: int| gives(w(t), ask, answer) implies #[trigger] continued(
                s,
                batch_view(batch),
                served(s, conn, cmd@, started, Progress::Ask(pending).run(w, t), w, t),
                w,
            ) == preceded(seq![Act::Ask(ask)], r.course(*self, w, t + 1)) by {
                let run = progress.run(w, t + 1);
                assert(run == pending.after(w(t), w, t + 1));
                let rest = served(s, conn, cmd@, started, run, w, t + 1);
                lemma_served_asked(s, conn, cmd@, started, ask, run, w, t);
                lemma_continued_preceded(s, batch_view(batch), seq![Act::Ask(ask)], rest, w);
                lemma_preceded_by_nothing(continued(s, batch_view(batch), rest, w));
            }
        }
        r
    }

    /// Logs the reply to a request that ends now.
    fn log_step(
        &mut self,
        cmd: Json,
        batch: Option<Batch>,
        from: u64,
        reply: Json,
        now: u64,
    ) -> (r: Step)
        requires
            old(self).conn.wf(),
            command_parts(cmd@) is Some,
            batch_wf(batch),
        ensures
            r.wf(*final(self)),
            final(self).conn.settings == old(self).conn.settings,
            forall|w: World, t: int|
                w(t).now == now ==> #[trigger] continued(
                    old(self).conn.settings,
                    batch_view(batch),
                    logged(
                        old(self).conn.settings,
                        old(self).conn@,
                        cmd@,
                        Some(from),
                        reply@,
                        w,
                        t,
                    ),
                    w,
                ) == preceded(
                    seq![Act::Ask(LookupView::Now)],
                    r.course(*final(self), w, t + 1),
                ),
    {
        let ghost s = self.conn.settings;
        let ghost conn = self.conn@;
        let duration: u64 = now.saturating_sub(from);
        let entry: Effect = Effect::Log(self.conn.response_line(&cmd, &reply, duration));
        let mut effects: Vec<Effect> = Vec::new();
        effects.push(entry);
        assert(effect_acts(effects@) =~= seq![entry@]);
        let r: Step = self.reply_step(batch, reply, effects);
        proof {
            let ask = seq![Act::Ask(LookupView::Now)];
            assert forall|w: World, t: int| w(t).now == now implies #[trigger] continued(
                s,
                batch_view(batch),
                logged(s, conn, cmd@, Some(from), reply@, w, t),
                w,
            ) == preceded(ask, r.course(*self, w, t + 1)) by {
                let last = finished(conn, reply@, t + 1);
                lemma_continued_preceded(
                    s,
                    batch_view(batch),
                    ask,
                    preceded(seq![entry@], last),
                    w,
                );
                lemma_continued_preceded(s, batch_view(batch), seq![entry@], last, w);
                lemma_continued_finished(s, conn, batch_view(batch), reply@, w, t + 1);
            }
        }
        r
    }

    /// Starts on a request at a known time.
    fn clock_step(
        &mut self,
        cmd: Json,
        batch: Option<Batch>,
        progress: Progress,
        now: u64,
    ) -> (r: Step)
        requires
            old(self).conn.wf(),
            command_parts(cmd@) is Some,
            batch_wf(batch),
            progress.wf(),
        ensures
            r.wf(*final(self)),
            final(self).conn.settings == old(self).conn.settings,
            forall|w: World, t: int|
                #[trigger] r.course(*final(self), w, t) == continued(
                    old(self).conn.settings,
                    batch_view(batch),
                    timed(
                        cmd@,
                        served(
                            old(self).conn.settings,
                            old(self).conn@,
                            cmd@,
                            Some(now),
                            progress.run(w, t),
                            w,
                            t,
                        ),
                    ),
                    w,
                ),
    {
        let ghost s = self.conn.settings;
        let ghost conn = self.conn@;
        let mut effects: Vec<Effect> = Vec::new();
        let ghost before = effects@;
        assert(effect_acts(before) =~= Seq::empty());
        start_timer(&cmd, &mut effects);
        let r: Step = self.command_step(cmd, batch, Some(now), progress, effects);
        proof {
            assert forall|w: World, t: int|
                #[trigger] r.course(*self, w, t) == continued(
                    s,
                    batch_view(batch),
                    timed(cmd@, served(s, conn, cmd@, Some(now), progress.run(w, t), w, t)),
                    w,
                ) by {
                let rest = served(s, conn, cmd@, Some(now), progress.run(w, t), w, t);
                lemma_timed(s, batch_view(batch), effect_acts(before), cmd@, rest, w);
                lemma_preceded_by_nothing(
                    continued(s, batch_view(batch), timed(cmd@, rest), w),
                );
            }
        }
        r
    }

    /// Goes on with an update when it is known which transactions in the history
    /// of script `i` have unconfirmed parents.
    fn parents_step(
        &mut self,
        items: Vec<HistoryItem>,
        flags: Vec<bool>,
        notes: Vec<Json>,
        i: usize,
        dirty: DirtyScriptHashes,
        tip_changed: bool,
    ) -> (r: Step)
        requires
            old(self).conn.wf(),
            i < old(self).conn.status_hashes@.len(),
            items@.len() <= MAX_SUMMED_UP,
            flags@.len() == mempool_txids(items@).len(),
        ensures
            r.wf(*final(self)),
            final(self).conn.settings == old(self).conn.settings,
            forall|w: World, t: int|
                #[trigger] r.course(*final(self), w, t) == notified(
                    ({
                        let (conn1, notes1) = status_checked(
                            old(self).conn@,
                            json_views(notes@),
                            i as int,
                            status_hash(items@, flags@),
                        );
                        scan_course(
                            old(self).conn.settings,
                            conn1,
                            notes1,
                            i + 1,
                            dirty@,
                            tip_changed,
                            w,
                            t,
                        )
                    }),
                ),
    {
        let status: Option<FullHash> = get_status_hash(&items, &flags);
        self.status_step(status, notes, i, dirty, tip_changed)
    }

    /// Goes on with the answer of the index.
    pub fn resume(&mut self, answer: Answer) -> (r: Step)
        requires
            old(self).wf(),
            !(old(self).task is Idle),
            fits(old(self).question(), answer),
        ensures
            r.wf(*final(self)),
            final(self).conn.settings == old(self).conn.settings,
            forall|w: World, t: int|
                gives(w(t), old(self).question(), answer) ==> #[trigger] old(self).remaining(w, t)
                    == preceded(
                    seq![Act::Ask(old(self).question())],
                    r.course(*final(self), w, t + 1),
                ),
    {
        let mut task: Task = Task::Idle;
        std::mem::swap(&mut task, &mut self.task);
        reveal(Session::remaining);
        match (task, answer) {
            (Task::Clock { cmd, batch, progress }, Answer::Now(now)) => self.clock_step(
                cmd,
                batch,
                progress,
                now,
            ),
            (Task::Command { cmd, batch, started, pending }, answer) => self.command_answered(
                cmd,
                batch,
                started,
                pending,
                answer,
            ),
            (Task::Finish { cmd, batch, from, reply }, Answer::Now(now)) => self.log_step(
                cmd,
                batch,
                from,
                reply,
                now,
            ),
            (Task::Header { last, dirty, tip_changed }, Answer::BestHeader(entry)) => {
                let ghost s = self.conn.settings;
                let ghost conn = self.conn@;
                let r: Step = self.header_step(last, entry, dirty, tip_changed);
                proof {
                    assert forall|w: World, t: int|
                        w(t).best_header == entry@ implies #[trigger] old(self).remaining(w, t)
                        == preceded(
                        seq![Act::Ask(LookupView::BestHeader)],
                        r.course(*self, w, t + 1),
                    ) by {
                        lemma_notified_preceded(
                            seq![Act::Ask(LookupView::BestHeader)],
                            header_checked(
                                s,
                                conn,
                                last@,
                                entry@,
                                dirty@,
                                tip_changed,
                                w,
                                t + 1,
                            ),
                        );
                    }
                }
                r
            },
            (
                Task::Script { notes, i, dirty, tip_changed },
                Answer::History(items),
            ) => self.history_step(items, notes, i, dirty, tip_changed),
            (
                Task::Parents { items, notes, i, dirty, tip_changed },
                Answer::UnconfirmedParents(flags),
            ) => {
                let ghost s = self.conn.settings;
                let ghost conn = self.conn@;
                let r: Step = self.parents_step(items, flags, notes, i, dirty, tip_changed);
                proof {
                    let ask = seq![Act::Ask(LookupView::UnconfirmedParents(mempool_txids(items@)))];
                    assert forall|w: World, t: int|
                        flags@ == mempool_txids(items@).map_values(
                            w(t).unconfirmed_parents,
                        ) implies #[trigger] old(self).remaining(w, t) == preceded(
                        ask,
                        r.course(*self, w, t + 1),
                    ) by {
                        let (conn1, notes1) = status_checked(
                            conn,
                            json_views(notes@),
                            i as int,
                            status_at(items@, w(t)),
                        );
                        lemma_notified_preceded(
                            ask,
                            scan_course(s, conn1, notes1, i + 1, dirty@, tip_changed, w, t + 1),
                        );
                    }
                }
                r
            },
            // no answer of another kind fits
            _ => Step { effects: Vec::new(), next: Next::Wait },
        }
    }
}

} // verus!
