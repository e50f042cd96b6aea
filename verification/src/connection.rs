//! A connection: what its client follows, and how its requests are served.
use crate::chain::{HeaderEntry, HeaderEntryView};
use crate::commands::{
    block_header_run, block_headers_run, command_run, estimatefee_run, fee_histogram_run, follows,
    headers_subscribe_run, relayfee_run, replied, scripthash_get_balance_run,
    scripthash_get_history_run, scripthash_listunspent_run, scripthash_subscribe_run,
    scripthash_unsubscribe_run, server_add_peer_run, server_features_run,
    server_peers_subscribe_run, server_version_json, transaction_broadcast_run,
    transaction_get_merkle_run, transaction_get_run, transaction_id_from_pos_run, Change,
    ChangeView, Subscription,
};
use crate::dialogue::event_line;
use crate::hash::{same_hash, sha256, sha256_digest, FullHash};
use crate::json::{json_views, object, render_json, Json, JsonView};
use crate::params::{
    bool_from_value_or, get_param, hash_from_value_or, param, usize_from_value, usize_from_value_or,
    RpcError,
};
use crate::pending::{Pending, Progress};
use crate::query::World;
use crate::settings::{Chain, Discovery, Settings, MAX_HEADERS, MAX_SALTED};
use crate::text::{hex, lemma_utf8_len, to_hex};
use vstd::prelude::*;
use vstd::string::StringExecFns;
use vstd::utf8::encode_utf8;

verus! {

/// A connection.
#[derive(Debug)]
pub struct Connection {
    pub settings: Settings,
    /// The best header that the client was last told, where it follows it.
    pub last_header_entry: Option<HeaderEntry>,
    /// The scripts that the client follows, oldest first.
    pub status_hashes: Vec<Subscription>,
}

/// What a client follows.
#[verifier::ext_equal]
pub struct ConnectionView {
    pub last_header_entry: Option<HeaderEntryView>,
    pub subscriptions: Seq<Subscription>,
}

/// No script is followed twice.
pub open spec fn distinct(subscriptions: Seq<Subscription>) -> bool {
    forall|i: int, j: int|
        0 <= i < j < subscriptions.len() ==> (#[trigger] subscriptions[i]).script_hash != (
        #[trigger] subscriptions[j]).script_hash
}

/// The scripts that are followed, each with the hash of its history that the
/// client was last told.
pub open spec fn status_map(subscriptions: Seq<Subscription>) -> Map<FullHash, Option<FullHash>>
    decreases subscriptions.len(),
{
    if subscriptions.len() == 0 {
        Map::empty()
    } else {
        let last = subscriptions.last();
        status_map(subscriptions.drop_last()).insert(last.script_hash, last.status_hash)
    }
}

/// Follows a script: it keeps its place where it is followed already.
pub open spec fn subscribe(
    subscriptions: Seq<Subscription>,
    script_hash: FullHash,
    status_hash: Option<FullHash>,
) -> Seq<Subscription> {
    let entry = Subscription { script_hash, status_hash };
    if follows(subscriptions, script_hash) {
        Seq::new(
            subscriptions.len(),
            |i: int|
                if subscriptions[i].script_hash == script_hash {
                    entry
                } else {
                    subscriptions[i]
                },
        )
    } else {
        subscriptions.push(entry)
    }
}

/// Follows a script no longer.
pub open spec fn unsubscribe(
    subscriptions: Seq<Subscription>,
    script_hash: FullHash,
) -> Seq<Subscription>
    decreases subscriptions.len(),
{
    if subscriptions.len() == 0 {
        Seq::empty()
    } else if subscriptions.last().script_hash == script_hash {
        unsubscribe(subscriptions.drop_last(), script_hash)
    } else {
        unsubscribe(subscriptions.drop_last(), script_hash).push(subscriptions.last())
    }
}

impl ConnectionView {
    /// What is followed after a change.
    pub open spec fn changed(self, change: ChangeView) -> ConnectionView {
        match change {
            ChangeView::Follow(entry) => ConnectionView { last_header_entry: Some(entry), ..self },
            ChangeView::Subscribe(script_hash, status_hash) => ConnectionView {
                subscriptions: subscribe(self.subscriptions, script_hash, status_hash),
                ..self
            },
            ChangeView::Unsubscribe(script_hash) => ConnectionView {
                subscriptions: unsubscribe(self.subscriptions, script_hash),
                ..self
            },
            ChangeView::Nothing | ChangeView::Rescan => self,
        }
    }
}

impl View for Connection {
    type V = ConnectionView;

    open spec fn view(&self) -> ConnectionView {
        ConnectionView {
            last_header_entry: match self.last_header_entry {
                Some(entry) => Some(entry@),
                None => None,
            },
            subscriptions: self.status_hashes@,
        }
    }
}

/// Whether a method is the one of that name.
fn is_named(method: &String, name: &str) -> (r: bool)
    ensures
        r == (method@ == name@),
{
    let name: String = name.to_string();
    *method == name
}

impl Connection {
    /// The settings are valid, and no script is followed twice.
    pub open spec fn wf(&self) -> bool {
        self.settings.wf() && distinct(self.status_hashes@)
    }

    /// A connection whose client follows nothing yet.
    pub fn new(settings: Settings) -> (r: Connection)
        requires
            settings.wf(),
        ensures
            r.wf(),
            r.settings == settings,
            r@ == (ConnectionView { last_header_entry: None, subscriptions: Seq::empty() }),
    {
        Connection { settings, last_header_entry: None, status_hashes: Vec::new() }
    }

    /// Where a script stands among those that are followed.
    pub(crate) fn position(&self, script_hash: &FullHash) -> (r: Option<usize>)
        ensures
            (match r {
                Some(i) => {
                    &&& i < self.status_hashes@.len()
                    &&& self.status_hashes@[i as int].script_hash == *script_hash
                },
                None => !follows(self.status_hashes@, *script_hash),
            }),
    {
        let mut i: usize = 0;
        while i < self.status_hashes.len()
            invariant
                i <= self.status_hashes@.len(),
                forall|j: int|
                    0 <= j < i ==> (#[trigger] self.status_hashes@[j]).script_hash != *script_hash,
            decreases self.status_hashes@.len() - i,
        {
            if same_hash(&self.status_hashes[i].script_hash, script_hash) {
                return Some(i);
            }
            i = i + 1;
        }
        None
    }

    /// Makes a change.
    pub fn apply(&mut self, change: Change)
        requires
            old(self).wf(),
        ensures
            final(self).wf(),
            final(self).settings == old(self).settings,
            final(self)@ == old(self)@.changed(change@),
    {
        let ghost before = self.status_hashes@;
        match change {
            Change::Follow(entry) => {
                self.last_header_entry = Some(entry);
            },
            Change::Subscribe(script_hash, status_hash) => {
                let entry: Subscription = Subscription { script_hash, status_hash };
                match self.position(&script_hash) {
                    Some(i) => {
                        self.status_hashes.set(i, entry);
                        assert(self.status_hashes@ =~= subscribe(before, script_hash, status_hash));
                    },
                    None => {
                        self.status_hashes.push(entry);
                    },
                }
            },
            Change::Unsubscribe(script_hash) => {
                match self.position(&script_hash) {
                    Some(i) => {
                        let _ = self.status_hashes.remove(i);
                        proof {
                            lemma_unsubscribe(before, i as int);
                        }
                    },
                    None => {
                        proof {
                            lemma_unsubscribe_other(before, script_hash);
                        }
                    },
                }
            },
            Change::Nothing | Change::Rescan => {},
        }
    }

    /// `blockchain.headers.subscribe`.
    pub fn blockchain_headers_subscribe(&self) -> (r: Progress)
        ensures
            r.wf(),
            forall|w: World, t: int| #[trigger] r.run(w, t) == headers_subscribe_run(w, t),
    {
        Progress::Ask(Pending::HeadersSubscribe)
    }

    /// `server.version`.
    pub fn server_version(&self) -> (r: Progress)
        ensures
            r.wf(),
            forall|w: World, t: int|
                #[trigger] r.run(w, t) == replied(server_version_json(self.settings)),
    {
        let mut name: String = "electrs-esplora ".to_string();
        name.append(self.settings.version.as_str());
        let mut items: Vec<Json> = Vec::new();
        items.push(Json::Text(name));
        items.push(Json::text("1.4"));
        assert(json_views(items@) =~= server_version_json(self.settings)->Array_0);
        Progress::reply(Json::array(items))
    }

    /// `server.banner`.
    pub fn server_banner(&self) -> (r: Progress)
        ensures
            r.wf(),
            forall|w: World, t: int|
                #[trigger] r.run(w, t) == replied(JsonView::Text(self.settings.banner@)),
    {
        Progress::reply(Json::Text(self.settings.banner.clone()))
    }

    /// `server.features`.
    pub fn server_features(&self) -> (r: Progress)
        ensures
            r.wf(),
            forall|w: World, t: int|
                #[trigger] r.run(w, t) == server_features_run(self.settings, w, t),
    {
        if self.settings.discovery != Discovery::Enabled {
            return Progress::fail(RpcError::new("discovery is disabled"));
        }
        Progress::Ask(Pending::Features)
    }

    /// `server.donation_address`: there is none.
    pub fn server_donation_address(&self) -> (r: Progress)
        ensures
            r.wf(),
            forall|w: World, t: int| #[trigger] r.run(w, t) == replied(JsonView::Null),
    {
        Progress::reply(Json::Null)
    }

    /// `server.peers.subscribe`.
    pub fn server_peers_subscribe(&self) -> (r: Progress)
        ensures
            r.wf(),
            forall|w: World, t: int|
                #[trigger] r.run(w, t) == server_peers_subscribe_run(self.settings, w, t),
    {
        if self.settings.discovery == Discovery::Enabled {
            return Progress::Ask(Pending::Peers);
        }
        let none: Vec<Json> = Vec::new();
        assert(json_views(none@) =~= Seq::empty());
        Progress::reply(Json::array(none))
    }

    /// `server.add_peer`.
    pub fn server_add_peer(&self, params: &Vec<Json>) -> (r: Progress)
        ensures
            r.wf(),
            forall|w: World, t: int|
                #[trigger] r.run(w, t) == server_add_peer_run(
                    self.settings,
                    json_views(params@),
                    w,
                    t,
                ),
    {
        if self.settings.discovery != Discovery::Enabled {
            return Progress::fail(RpcError::new("discovery is disabled"));
        }
        match get_param(params, 0) {
            None => Progress::fail(RpcError::new("missing features param")),
            Some(features) => Progress::Ask(Pending::AddPeer { features: features.copy() }),
        }
    }

    /// `mempool.get_fee_histogram`.
    pub fn mempool_get_fee_histogram(&self) -> (r: Progress)
        ensures
            r.wf(),
            forall|w: World, t: int| #[trigger] r.run(w, t) == fee_histogram_run(w, t),
    {
        Progress::Ask(Pending::FeeHistogram)
    }

    /// `blockchain.block.header`.
    pub fn blockchain_block_header(&self, params: &Vec<Json>) -> (r: Progress)
        ensures
            r.wf(),
            forall|w: World, t: int|
                #[trigger] r.run(w, t) == block_header_run(json_views(params@), w, t),
    {
        let height: usize = match usize_from_value(get_param(params, 0), "height") {
            Err(e) => return Progress::fail(e),
            Ok(height) => height,
        };
        match usize_from_value_or(get_param(params, 1), "cp_height", 0) {
            Err(e) => Progress::fail(e),
            Ok(cp_height) => Progress::Ask(Pending::BlockHeader { height, cp_height }),
        }
    }

    /// `blockchain.block.headers`.
    pub fn blockchain_block_headers(&self, params: &Vec<Json>) -> (r: Progress)
        ensures
            r.wf(),
            forall|w: World, t: int|
                #[trigger] r.run(w, t) == block_headers_run(json_views(params@), w, t),
    {
        let start: usize = match usize_from_value(get_param(params, 0), "start_height") {
            Err(e) => return Progress::fail(e),
            Ok(start) => start,
        };
        let wanted: usize = match usize_from_value(get_param(params, 1), "count") {
            Err(e) => return Progress::fail(e),
            Ok(wanted) => wanted,
        };
        let cp_height: usize = match usize_from_value_or(get_param(params, 2), "cp_height", 0) {
            Err(e) => return Progress::fail(e),
            Ok(cp_height) => cp_height,
        };
        let count: usize = if wanted < MAX_HEADERS {
            wanted
        } else {
            MAX_HEADERS
        };
        Progress::Ask(Pending::BlockHeaders { start, count, cp_height })
    }

    /// `blockchain.estimatefee`.
    pub fn blockchain_estimatefee(&self, params: &Vec<Json>) -> (r: Progress)
        ensures
            r.wf(),
            forall|w: World, t: int|
                #[trigger] r.run(w, t) == estimatefee_run(json_views(params@), w, t),
    {
        match usize_from_value(get_param(params, 0), "blocks_count") {
            Err(e) => Progress::fail(e),
            Ok(blocks) => Progress::Ask(Pending::EstimateFee { blocks }),
        }
    }

    /// `blockchain.relayfee`.
    pub fn blockchain_relayfee(&self) -> (r: Progress)
        ensures
            r.wf(),
            forall|w: World, t: int| #[trigger] r.run(w, t) == relayfee_run(w, t),
    {
        Progress::Ask(Pending::RelayFee)
    }

    /// `blockchain.scripthash.subscribe`.
    pub fn blockchain_scripthash_subscribe(&self, params: &Vec<Json>) -> (r: Progress)
        requires
            self.wf(),
        ensures
            r.wf(),
            forall|w: World, t: int|
                #[trigger] r.run(w, t) == scripthash_subscribe_run(
                    self.settings,
                    json_views(params@),
                    w,
                    t,
                ),
    {
        match hash_from_value_or(get_param(params, 0), "bad script_hash") {
            Err(e) => Progress::fail(e),
            Ok(hash) => Progress::Ask(
                Pending::Subscribe { hash, txs_limit: self.settings.txs_limit },
            ),
        }
    }

    /// `blockchain.scripthash.unsubscribe`.
    pub fn blockchain_scripthash_unsubscribe(&self, params: &Vec<Json>) -> (r: Progress)
        ensures
            r.wf(),
            forall|w: World, t: int|
                #[trigger] r.run(w, t) == scripthash_unsubscribe_run(
                    self@.subscriptions,
                    json_views(params@),
                ),
    {
        match hash_from_value_or(get_param(params, 0), "bad script_hash") {
            Err(e) => Progress::fail(e),
            Ok(hash) => {
                let followed: bool = self.position(&hash).is_some();
                Progress::reply_with(Json::Bool(followed), Change::Unsubscribe(hash))
            },
        }
    }

    /// `blockchain.scripthash.get_balance`.
    pub fn blockchain_scripthash_get_balance(&self, params: &Vec<Json>) -> (r: Progress)
        ensures
            r.wf(),
            forall|w: World, t: int|
                #[trigger] r.run(w, t) == scripthash_get_balance_run(json_views(params@), w, t),
    {
        match hash_from_value_or(get_param(params, 0), "bad script_hash") {
            Err(e) => Progress::fail(e),
            Ok(hash) => Progress::Ask(Pending::Balance { hash }),
        }
    }

    /// `blockchain.scripthash.get_history`.
    pub fn blockchain_scripthash_get_history(&self, params: &Vec<Json>) -> (r: Progress)
        requires
            self.wf(),
        ensures
            r.wf(),
            forall|w: World, t: int|
                #[trigger] r.run(w, t) == scripthash_get_history_run(
                    self.settings,
                    json_views(params@),
                    w,
                    t,
                ),
    {
        match hash_from_value_or(get_param(params, 0), "bad script_hash") {
            Err(e) => Progress::fail(e),
            Ok(hash) => Progress::Ask(
                Pending::History { hash, txs_limit: self.settings.txs_limit },
            ),
        }
    }

    /// `blockchain.scripthash.listunspent`.
    pub fn blockchain_scripthash_listunspent(&self, params: &Vec<Json>) -> (r: Progress)
        ensures
            r.wf(),
            forall|w: World, t: int|
                #[trigger] r.run(w, t) == scripthash_listunspent_run(json_views(params@), w, t),
    {
        match hash_from_value_or(get_param(params, 0), "bad script_hash") {
            Err(e) => Progress::fail(e),
            Ok(hash) => Progress::Ask(Pending::ListUnspent { hash }),
        }
    }

    /// `blockchain.transaction.broadcast`.
    pub fn blockchain_transaction_broadcast(&self, params: &Vec<Json>) -> (r: Progress)
        ensures
            r.wf(),
            forall|w: World, t: int|
                #[trigger] r.run(w, t) == transaction_broadcast_run(json_views(params@), w, t),
    {
        match get_param(params, 0) {
            None => Progress::fail(RpcError::new("missing tx")),
            Some(json) => match json {
                Json::Text(tx) => Progress::Ask(Pending::Broadcast { tx: tx.clone() }),
                _ => Progress::fail(RpcError::new("non-string tx")),
            },
        }
    }

    /// `blockchain.transaction.get`.
    pub fn blockchain_transaction_get(&self, params: &Vec<Json>) -> (r: Progress)
        ensures
            r.wf(),
            forall|w: World, t: int|
                #[trigger] r.run(w, t) == transaction_get_run(json_views(params@), w, t),
    {
        let txid: FullHash = match hash_from_value_or(get_param(params, 0), "bad tx_hash") {
            Err(e) => return Progress::fail(e),
            Ok(txid) => txid,
        };
        let verbose: bool = match get_param(params, 1) {
            None => false,
            Some(json) => match json {
                Json::Bool(verbose) => *verbose,
                _ => return Progress::fail(RpcError::new("non-bool verbose value")),
            },
        };
        if verbose {
            return Progress::fail(RpcError::new("verbose transactions are currently unsupported"));
        }
        Progress::Ask(Pending::GetTransaction { txid })
    }

    /// `blockchain.transaction.get_merkle`.
    pub fn blockchain_transaction_get_merkle(&self, params: &Vec<Json>) -> (r: Progress)
        ensures
            r.wf(),
            forall|w: World, t: int|
                #[trigger] r.run(w, t) == transaction_get_merkle_run(json_views(params@), w, t),
    {
        let txid: FullHash = match hash_from_value_or(get_param(params, 0), "bad tx_hash") {
            Err(e) => return Progress::fail(e),
            Ok(txid) => txid,
        };
        match usize_from_value(get_param(params, 1), "height") {
            Err(e) => Progress::fail(e),
            Ok(height) => Progress::Ask(Pending::GetMerkle { txid, height }),
        }
    }

    /// `blockchain.transaction.id_from_pos`.
    pub fn blockchain_transaction_id_from_pos(&self, params: &Vec<Json>) -> (r: Progress)
        ensures
            r.wf(),
            forall|w: World, t: int|
                #[trigger] r.run(w, t) == transaction_id_from_pos_run(json_views(params@), w, t),
    {
        let height: usize = match usize_from_value(get_param(params, 0), "height") {
            Err(e) => return Progress::fail(e),
            Ok(height) => height,
        };
        let pos: usize = match usize_from_value(get_param(params, 1), "tx_pos") {
            Err(e) => return Progress::fail(e),
            Ok(pos) => pos,
        };
        match bool_from_value_or(get_param(params, 2), "merkle", false) {
            Err(e) => Progress::fail(e),
            Ok(want_merkle) => Progress::Ask(Pending::IdFromPos { height, pos, want_merkle }),
        }
    }

    /// A salted hash that stands for the address of a client.
    pub fn hash_ip_with_salt(&self, ip: &str) -> (r: String)
        requires
            self.settings.salt@.len() + ip@.len() <= MAX_SALTED,
        ensures
            r@ == hex(sha256(encode_utf8(self.settings.salt@ + ip@))),
    {
        let mut text: String = self.settings.salt.clone();
        text.append(ip);
        proof {
            lemma_utf8_len(text@);
        }
        let hash: FullHash = sha256_digest(text.as_str().as_bytes());
        to_hex(hash.as_slice())
    }

    /// An event as it is logged, with the client that it is about.
    pub fn log_rpc_event(&self, log: Json) -> (r: String)
        requires
            self.wf(),
            log is Object,
        ensures
            r@ == event_line(self.settings, log@),
    {
        let ip: String = if self.settings.rpc_logging.anonymize_ip {
            self.hash_ip_with_salt(self.settings.ip.as_str())
        } else {
            self.settings.ip.clone()
        };
        let source: Json = Json::empty_object().with("ip", Json::Text(ip)).with(
            "port",
            Json::Unsigned(self.settings.port as u64),
        );
        render_json(&log.with("source", source))
    }

    /// The line that logs that the connection begins or ends, if it is logged.
    pub fn connection_event(&self, name: &str) -> (r: Option<String>)
        requires
            self.wf(),
        ensures
            (match r {
                Some(text) => self.settings.rpc_logging.enabled && text@ == event_line(
                    self.settings,
                    object().with("event"@, JsonView::Text(name@)),
                ),
                None => !self.settings.rpc_logging.enabled,
            }),
    {
        if self.settings.rpc_logging.enabled {
            let event: Json = Json::empty_object().with("event", Json::text(name));
            Some(self.log_rpc_event(event))
        } else {
            None
        }
    }

    /// Starts on a request, where its method is known.
    pub fn handle_command(&self, method: &String, params: &Vec<Json>) -> (r: Option<Progress>)
        requires
            self.wf(),
        ensures
            (match r {
                Some(progress) => progress.wf() && forall|w: World, t: int|
                    command_run(
                        self.settings,
                        self@.subscriptions,
                        method@,
                        json_views(params@),
                        w,
                        t,
                    ) == Some(#[trigger] progress.run(w, t)),
                None => forall|w: World, t: int|
                    #[trigger] command_run(
                        self.settings,
                        self@.subscriptions,
                        method@,
                        json_views(params@),
                        w,
                        t,
                    ) is None,
            }),
    {
        reveal(command_run);
        if is_named(method, "blockchain.block.header") {
            Some(self.blockchain_block_header(params))
        } else if is_named(method, "blockchain.block.headers") {
            Some(self.blockchain_block_headers(params))
        } else if is_named(method, "blockchain.estimatefee") {
            Some(self.blockchain_estimatefee(params))
        } else if is_named(method, "blockchain.headers.subscribe") {
            Some(self.blockchain_headers_subscribe())
        } else if is_named(method, "blockchain.relayfee") {
            Some(self.blockchain_relayfee())
        } else if is_named(method, "blockchain.scripthash.get_balance") && self.settings.chain
            == Chain::Bitcoin {
            Some(self.blockchain_scripthash_get_balance(params))
        } else if is_named(method, "blockchain.scripthash.get_history") {
            Some(self.blockchain_scripthash_get_history(params))
        } else if is_named(method, "blockchain.scripthash.listunspent") {
            Some(self.blockchain_scripthash_listunspent(params))
        } else if is_named(method, "blockchain.scripthash.subscribe") {
            Some(self.blockchain_scripthash_subscribe(params))
        } else if is_named(method, "blockchain.scripthash.unsubscribe") {
            Some(self.blockchain_scripthash_unsubscribe(params))
        } else if is_named(method, "blockchain.transaction.broadcast") {
            Some(self.blockchain_transaction_broadcast(params))
        } else if is_named(method, "blockchain.transaction.get") {
            Some(self.blockchain_transaction_get(params))
        } else if is_named(method, "blockchain.transaction.get_merkle") {
            Some(self.blockchain_transaction_get_merkle(params))
        } else if is_named(method, "blockchain.transaction.id_from_pos") {
            Some(self.blockchain_transaction_id_from_pos(params))
        } else if is_named(method, "mempool.get_fee_histogram") {
            Some(self.mempool_get_fee_histogram())
        } else if is_named(method, "server.banner") {
            Some(self.server_banner())
        } else if is_named(method, "server.donation_address") {
            Some(self.server_donation_address())
        } else if is_named(method, "server.peers.subscribe") {
            Some(self.server_peers_subscribe())
        } else if is_named(method, "server.ping") {
            Some(Progress::reply(Json::Null))
        } else if is_named(method, "server.version") {
            Some(self.server_version())
        } else if is_named(method, "server.features") && self.settings.discovery
            != Discovery::Absent {
            Some(self.server_features())
        } else if is_named(method, "server.add_peer") && self.settings.discovery
            != Discovery::Absent {
            Some(self.server_add_peer(params))
        } else {
            None
        }
    }
}

/// A script that is not followed leaves nothing to remove.
proof fn lemma_unsubscribe_other(subscriptions: Seq<Subscription>, script_hash: FullHash)
    requires
        !follows(subscriptions, script_hash),
    ensures
        unsubscribe(subscriptions, script_hash) == subscriptions,
    decreases subscriptions.len(),
{
    if subscriptions.len() > 0 {
        let rest = subscriptions.drop_last();
        assert(subscriptions[subscriptions.len() - 1].script_hash != script_hash);
        assert forall|i: int| 0 <= i < rest.len() implies (#[trigger] rest[i]).script_hash
            != script_hash by {
            assert(rest[i] == subscriptions[i]);
        }
        lemma_unsubscribe_other(rest, script_hash);
        assert(rest.push(subscriptions.last()) =~= subscriptions);
    } else {
        assert(subscriptions =~= Seq::empty());
    }
}

/// A script that is followed once leaves its place.
proof fn lemma_unsubscribe(subscriptions: Seq<Subscription>, i: int)
    requires
        distinct(subscriptions),
        0 <= i < subscriptions.len(),
    ensures
        unsubscribe(subscriptions, subscriptions[i].script_hash) == subscriptions.remove(i),
    decreases subscriptions.len(),
{
    let rest = subscriptions.drop_last();
    let script_hash = subscriptions[i].script_hash;
    assert(distinct(rest)) by {
        assert forall|a: int, b: int| 0 <= a < b < rest.len() implies (
        #[trigger] rest[a]).script_hash != (#[trigger] rest[b]).script_hash by {
            assert(rest[a] == subscriptions[a] && rest[b] == subscriptions[b]);
        }
    }
    if i == subscriptions.len() - 1 {
        assert(!follows(rest, script_hash)) by {
            assert forall|a: int| 0 <= a < rest.len() implies (#[trigger] rest[a]).script_hash
                != script_hash by {
                assert(rest[a] == subscriptions[a]);
            }
        }
        lemma_unsubscribe_other(rest, script_hash);
        assert(subscriptions.remove(i) =~= rest);
    } else {
        assert(subscriptions[i].script_hash != subscriptions[subscriptions.len() - 1].script_hash);
        assert(rest[i] == subscriptions[i]);
        lemma_unsubscribe(rest, i);
        assert(subscriptions.remove(i) =~= rest.remove(i).push(subscriptions.last()));
    }
}

/// The scripts with a hash on record are those that are followed.
pub proof fn lemma_status_map_keys(subscriptions: Seq<Subscription>, script_hash: FullHash)
    ensures
        status_map(subscriptions).contains_key(script_hash) == follows(subscriptions, script_hash),
    decreases subscriptions.len(),
{
    if subscriptions.len() > 0 {
        let rest = subscriptions.drop_last();
        let last = subscriptions.len() - 1;
        lemma_status_map_keys(rest, script_hash);
        if follows(rest, script_hash) {
            let i = choose|i: int|
                0 <= i < rest.len() && (#[trigger] rest[i]).script_hash == script_hash;
            assert(subscriptions[i].script_hash == script_hash);
        }
        if follows(subscriptions, script_hash) {
            let i = choose|i: int|
                0 <= i < subscriptions.len() && (#[trigger] subscriptions[i]).script_hash
                    == script_hash;
            if i < last {
                assert(rest[i].script_hash == script_hash);
            }
        }
        assert(subscriptions[last] == subscriptions.last());
    }
}

/// The hash on record for a script is the one in its subscription.
pub proof fn lemma_status_map_value(subscriptions: Seq<Subscription>, i: int)
    requires
        distinct(subscriptions),
        0 <= i < subscriptions.len(),
    ensures
        status_map(subscriptions).contains_key(subscriptions[i].script_hash),
        status_map(subscriptions)[subscriptions[i].script_hash] == subscriptions[i].status_hash,
    decreases subscriptions.len(),
{
    let rest = subscriptions.drop_last();
    let last = subscriptions.len() - 1;
    assert(subscriptions[last] == subscriptions.last());
    if i < last {
        lemma_distinct_prefix(subscriptions);
        assert(rest[i] == subscriptions[i]);
        assert(subscriptions[i].script_hash != subscriptions[last].script_hash);
        lemma_status_map_value(rest, i);
    }
}

/// Without the last of them, the scripts are still distinct.
proof fn lemma_distinct_prefix(subscriptions: Seq<Subscription>)
    requires
        distinct(subscriptions),
        subscriptions.len() > 0,
    ensures
        distinct(subscriptions.drop_last()),
{
    let rest = subscriptions.drop_last();
    assert forall|a: int, b: int| 0 <= a < b < rest.len() implies (
    #[trigger] rest[a]).script_hash != (#[trigger] rest[b]).script_hash by {
        assert(rest[a] == subscriptions[a] && rest[b] == subscriptions[b]);
    }
}

/// To follow a script puts its hash on record and leaves the others as they
/// are. There is one subscription more if it was not followed before.
pub proof fn lemma_subscribe(
    subscriptions: Seq<Subscription>,
    script_hash: FullHash,
    status_hash: Option<FullHash>,
)
    requires
        distinct(subscriptions),
    ensures
        distinct(subscribe(subscriptions, script_hash, status_hash)),
        status_map(subscribe(subscriptions, script_hash, status_hash)) == status_map(
            subscriptions,
        ).insert(script_hash, status_hash),
        subscribe(subscriptions, script_hash, status_hash).len() == subscriptions.len() + (
        if follows(subscriptions, script_hash) {
            0int
        } else {
            1
        }),
{
    let more = subscribe(subscriptions, script_hash, status_hash);
    if !follows(subscriptions, script_hash) {
        assert(more.drop_last() =~= subscriptions);
    } else {
        let expected = status_map(subscriptions).insert(script_hash, status_hash);
        let found = status_map(more);
        assert forall|h: FullHash|
            #![trigger found.dom().contains(h)]
            #![trigger expected.dom().contains(h)]
            found.dom().contains(h) == expected.dom().contains(h) && (found.dom().contains(h)
                ==> found[h] == expected[h]) by {
            lemma_status_map_keys(subscriptions, h);
            lemma_status_map_keys(subscriptions, script_hash);
            lemma_status_map_keys(more, h);
            if follows(subscriptions, h) {
                let i = choose|i: int|
                    0 <= i < subscriptions.len() && (#[trigger] subscriptions[i]).script_hash == h;
                assert(more[i].script_hash == h);
                lemma_status_map_value(subscriptions, i);
                lemma_status_map_value(more, i);
            }
            if follows(more, h) {
                let i = choose|i: int|
                    0 <= i < more.len() && (#[trigger] more[i]).script_hash == h;
                assert(subscriptions[i].script_hash == h);
            }
        }
        assert(found =~= expected);
    }
}

/// To follow a script no longer takes its hash off the record and leaves the
/// others as they are. There is one subscription less if it was followed.
pub proof fn lemma_unsubscribe_forgets(subscriptions: Seq<Subscription>, script_hash: FullHash)
    requires
        distinct(subscriptions),
    ensures
        distinct(unsubscribe(subscriptions, script_hash)),
        !follows(unsubscribe(subscriptions, script_hash), script_hash),
        status_map(unsubscribe(subscriptions, script_hash)) == status_map(subscriptions).remove(
            script_hash,
        ),
        unsubscribe(subscriptions, script_hash).len() == subscriptions.len() - (if follows(
            subscriptions,
            script_hash,
        ) {
            1int
        } else {
            0
        }),
    decreases subscriptions.len(),
{
    let less = unsubscribe(subscriptions, script_hash);
    if !follows(subscriptions, script_hash) {
        lemma_unsubscribe_other(subscriptions, script_hash);
        lemma_status_map_keys(subscriptions, script_hash);
        assert(status_map(subscriptions).remove(script_hash) =~= status_map(subscriptions));
    } else {
        let i = choose|i: int|
            0 <= i < subscriptions.len() && (#[trigger] subscriptions[i]).script_hash
                == script_hash;
        lemma_unsubscribe(subscriptions, i);
        assert forall|a: int, b: int| 0 <= a < b < less.len() implies (
        #[trigger] less[a]).script_hash != (#[trigger] less[b]).script_hash by {
            let (c, d) = (
                if a < i {
                    a
                } else {
                    a + 1
                },
                if b < i {
                    b
                } else {
                    b + 1
                },
            );
            assert(less[a] == subscriptions[c] && less[b] == subscriptions[d]);
        }
        assert forall|a: int| 0 <= a < less.len() implies (#[trigger] less[a]).script_hash
            != script_hash by {
            let c = if a < i {
                a
            } else {
                a + 1
            };
            assert(less[a] == subscriptions[c]);
        }
        let expected = status_map(subscriptions).remove(script_hash);
        let found = status_map(less);
        assert forall|h: FullHash|
            #![trigger found.dom().contains(h)]
            #![trigger expected.dom().contains(h)]
            found.dom().contains(h) == expected.dom().contains(h) && (found.dom().contains(h)
                ==> found[h] == expected[h]) by {
            lemma_status_map_keys(subscriptions, h);
            lemma_status_map_keys(less, h);
            if follows(less, h) {
                let a = choose|a: int|
                    0 <= a < less.len() && (#[trigger] less[a]).script_hash == h;
                let c = if a < i {
                    a
                } else {
                    a + 1
                };
                assert(less[a] == subscriptions[c]);
                lemma_status_map_value(subscriptions, c);
                lemma_status_map_value(less, a);
            }
            if follows(subscriptions, h) && h != script_hash {
                let c = choose|c: int|
                    0 <= c < subscriptions.len() && (#[trigger] subscriptions[c]).script_hash == h;
                let a = if c < i {
                    c
                } else {
                    c - 1
                };
                assert(less[a] == subscriptions[c]);
            }
        }
        assert(found =~= expected);
    }
}

} // verus!
