//! What the client is replied to each request, in terms of what the index holds.
use crate::chain::{HeaderView, Txid};
use crate::commands::{
    block_header_run, block_headers_run, command_run, estimatefee_run, fee_histogram_run,
    headers_subscribe_run, joined_hex, present, relayfee_run, replied, scripthash_get_balance_run,
    scripthash_get_history_run, scripthash_listunspent_run, scripthash_subscribe_run,
    scripthash_unsubscribe_run, server_add_peer_run, server_features_run,
    server_peers_subscribe_run, server_version_json, transaction_broadcast_run,
    transaction_get_merkle_run, transaction_get_run, transaction_id_from_pos_run, ChangeView, Run,
    Subscription,
};
use crate::encoding_laws::lemma_field_found;
use crate::hash::{hash_of_text, hash_text, sha256, FullHash};
use crate::history::mempool_txids;
use crate::history_laws::{
    heights_fit, lemma_history_entries, lemma_mempool_kept, lemma_status_hash_digest, lists,
    status_parts,
};
use crate::json::JsonView;
use crate::params::{
    bool_param, bool_param_or, hash_param, hash_param_or, lemma_hash_with, param, usize_param,
    usize_param_or, ErrorView,
};
use crate::query::{
    headers_from, CoinsView, HistoryItem, Index, LookupView, PeerFault, UtxoView, World,
};
use crate::settings::{Chain, Discovery, Settings};
use crate::text::{decimal, hex};
use vstd::prelude::*;
use vstd::utf8::encode_utf8;

verus! {

/// Each method is served by the request of its name.
proof fn lemma_methods(
    s: Settings,
    subscriptions: Seq<Subscription>,
    params: Seq<JsonView>,
    w: World,
    t: int,
)
    ensures
        command_run(s, subscriptions, "blockchain.block.header"@, params, w, t) == Some(
            block_header_run(params, w, t),
        ),
        command_run(s, subscriptions, "blockchain.block.headers"@, params, w, t) == Some(
            block_headers_run(params, w, t),
        ),
        command_run(s, subscriptions, "blockchain.estimatefee"@, params, w, t) == Some(
            estimatefee_run(params, w, t),
        ),
        command_run(s, subscriptions, "blockchain.headers.subscribe"@, params, w, t) == Some(
            headers_subscribe_run(w, t),
        ),
        command_run(s, subscriptions, "blockchain.relayfee"@, params, w, t) == Some(
            relayfee_run(w, t),
        ),
        command_run(s, subscriptions, "blockchain.scripthash.get_balance"@, params, w, t) == (
        if s.chain == Chain::Bitcoin {
            Some(scripthash_get_balance_run(params, w, t))
        } else {
            None
        }),
        command_run(s, subscriptions, "blockchain.scripthash.get_history"@, params, w, t) == Some(
            scripthash_get_history_run(s, params, w, t),
        ),
        command_run(s, subscriptions, "blockchain.scripthash.listunspent"@, params, w, t) == Some(
            scripthash_listunspent_run(params, w, t),
        ),
        command_run(s, subscriptions, "blockchain.scripthash.subscribe"@, params, w, t) == Some(
            scripthash_subscribe_run(s, params, w, t),
        ),
        command_run(s, subscriptions, "blockchain.scripthash.unsubscribe"@, params, w, t) == Some(
            scripthash_unsubscribe_run(subscriptions, params),
        ),
        command_run(s, subscriptions, "blockchain.transaction.broadcast"@, params, w, t) == Some(
            transaction_broadcast_run(params, w, t),
        ),
        command_run(s, subscriptions, "blockchain.transaction.get"@, params, w, t) == Some(
            transaction_get_run(params, w, t),
        ),
        command_run(s, subscriptions, "blockchain.transaction.get_merkle"@, params, w, t) == Some(
            transaction_get_merkle_run(params, w, t),
        ),
        command_run(s, subscriptions, "blockchain.transaction.id_from_pos"@, params, w, t) == Some(
            transaction_id_from_pos_run(params, w, t),
        ),
        command_run(s, subscriptions, "mempool.get_fee_histogram"@, params, w, t) == Some(
            fee_histogram_run(w, t),
        ),
        command_run(s, subscriptions, "server.banner"@, params, w, t) == Some(
            replied(JsonView::Text(s.banner@)),
        ),
        command_run(s, subscriptions, "server.donation_address"@, params, w, t) == Some(
            replied(JsonView::Null),
        ),
        command_run(s, subscriptions, "server.peers.subscribe"@, params, w, t) == Some(
            server_peers_subscribe_run(s, w, t),
        ),
        command_run(s, subscriptions, "server.ping"@, params, w, t) == Some(
            replied(JsonView::Null),
        ),
        command_run(s, subscriptions, "server.version"@, params, w, t) == Some(
            replied(server_version_json(s)),
        ),
        command_run(s, subscriptions, "server.features"@, params, w, t) == (if s.discovery
            != Discovery::Absent {
            Some(server_features_run(s, w, t))
        } else {
            None
        }),
        command_run(s, subscriptions, "server.add_peer"@, params, w, t) == (if s.discovery
            != Discovery::Absent {
            Some(server_add_peer_run(s, params, w, t))
        } else {
            None
        }),
{
    reveal(command_run);
    reveal_strlit("blockchain.block.header");
    reveal_strlit("blockchain.block.headers");
    reveal_strlit("blockchain.estimatefee");
    reveal_strlit("blockchain.headers.subscribe");
    reveal_strlit("blockchain.relayfee");
    reveal_strlit("blockchain.scripthash.get_balance");
    reveal_strlit("blockchain.scripthash.get_history");
    reveal_strlit("blockchain.scripthash.listunspent");
    reveal_strlit("blockchain.scripthash.subscribe");
    reveal_strlit("blockchain.scripthash.unsubscribe");
    reveal_strlit("blockchain.transaction.broadcast");
    reveal_strlit("blockchain.transaction.get");
    reveal_strlit("blockchain.transaction.get_merkle");
    reveal_strlit("blockchain.transaction.id_from_pos");
    reveal_strlit("mempool.get_fee_histogram");
    reveal_strlit("server.banner");
    reveal_strlit("server.donation_address");
    reveal_strlit("server.peers.subscribe");
    reveal_strlit("server.ping");
    reveal_strlit("server.version");
    reveal_strlit("server.features");
    reveal_strlit("server.add_peer");
    assert("blockchain.block.header"@.len() == 23);
    assert("blockchain.block.headers"@.len() == 24);
    assert("blockchain.estimatefee"@.len() == 22);
    assert("blockchain.headers.subscribe"@.len() == 28);
    assert("blockchain.relayfee"@.len() == 19);
    assert("blockchain.scripthash.get_balance"@.len() == 33);
    assert("blockchain.scripthash.get_history"@.len() == 33);
    assert("blockchain.scripthash.listunspent"@.len() == 33);
    assert("blockchain.scripthash.subscribe"@.len() == 31);
    assert("blockchain.scripthash.unsubscribe"@.len() == 33);
    assert("blockchain.transaction.broadcast"@.len() == 32);
    assert("blockchain.transaction.get"@.len() == 26);
    assert("blockchain.transaction.get_merkle"@.len() == 33);
    assert("blockchain.transaction.id_from_pos"@.len() == 34);
    assert("mempool.get_fee_histogram"@.len() == 25);
    assert("server.banner"@.len() == 13);
    assert("server.donation_address"@.len() == 23);
    assert("server.peers.subscribe"@.len() == 22);
    assert("server.ping"@.len() == 11);
    assert("server.version"@.len() == 14);
    assert("server.features"@.len() == 15);
    assert("server.add_peer"@.len() == 15);
    // Those of one length differ in a character.
    assert("blockchain.block.header"@[0] == 'b' && "server.donation_address"@[0] == 's');
    assert("blockchain.estimatefee"@[0] == 'b' && "server.peers.subscribe"@[0] == 's');
    assert("server.features"@[7] == 'f' && "server.add_peer"@[7] == 'a');
    assert("blockchain.scripthash.get_balance"@[22] == 'g'
        && "blockchain.scripthash.get_history"@[22] == 'g'
        && "blockchain.scripthash.listunspent"@[22] == 'l'
        && "blockchain.scripthash.unsubscribe"@[22] == 'u'
        && "blockchain.transaction.get_merkle"@[22] == '.');
    assert("blockchain.scripthash.get_balance"@[26] == 'b'
        && "blockchain.scripthash.get_history"@[26] == 'h');
}

/// A method of any other name is not known.
pub proof fn lemma_unknown_method(
    s: Settings,
    subscriptions: Seq<Subscription>,
    method: Seq<char>,
    params: Seq<JsonView>,
    w: World,
    t: int,
)
    ensures
        command_run(s, subscriptions, method, params, w, t) is Some <==> {
            ||| method == "blockchain.block.header"@
            ||| method == "blockchain.block.headers"@
            ||| method == "blockchain.estimatefee"@
            ||| method == "blockchain.headers.subscribe"@
            ||| method == "blockchain.relayfee"@
            ||| method == "blockchain.scripthash.get_balance"@ && s.chain == Chain::Bitcoin
            ||| method == "blockchain.scripthash.get_history"@
            ||| method == "blockchain.scripthash.listunspent"@
            ||| method == "blockchain.scripthash.subscribe"@
            ||| method == "blockchain.scripthash.unsubscribe"@
            ||| method == "blockchain.transaction.broadcast"@
            ||| method == "blockchain.transaction.get"@
            ||| method == "blockchain.transaction.get_merkle"@
            ||| method == "blockchain.transaction.id_from_pos"@
            ||| method == "mempool.get_fee_histogram"@
            ||| method == "server.banner"@
            ||| method == "server.donation_address"@
            ||| method == "server.peers.subscribe"@
            ||| method == "server.ping"@
            ||| method == "server.version"@
            ||| method == "server.features"@ && s.discovery != Discovery::Absent
            ||| method == "server.add_peer"@ && s.discovery != Discovery::Absent
        },
{
    reveal(command_run);
}

/// A request asks these questions, in order, is replied this, and changes nothing.
pub open spec fn ends_in(
    run: Option<Run>,
    asks: Seq<LookupView>,
    reply: Result<JsonView, ErrorView>,
) -> bool {
    &&& run matches Some(run)
    &&& run.asks == asks
    &&& run.outcome.reply == reply
    &&& run.outcome.change is Nothing
}

/// A request asks these questions, in order, has this result and makes this change.
pub open spec fn changes(
    run: Option<Run>,
    asks: Seq<LookupView>,
    result: JsonView,
    change: ChangeView,
) -> bool {
    &&& run matches Some(run)
    &&& run.asks == asks
    &&& run.outcome.reply == Ok::<JsonView, ErrorView>(result)
    &&& run.outcome.change == change
}

/// A request asks these questions, in order, and fails with a message, for these
/// causes.
pub open spec fn refused(
    run: Option<Run>,
    asks: Seq<LookupView>,
    message: Seq<char>,
    causes: Seq<Seq<char>>,
) -> bool {
    &&& run matches Some(run)
    &&& run.asks == asks
    &&& run.outcome.reply matches Err(e)
    &&& e.message == message
    &&& e.causes == causes
    &&& run.outcome.change is Nothing
}

/// The text of each hash, in order and no other.
pub open spec fn shows_hashes(json: Option<JsonView>, hashes: Seq<FullHash>) -> bool {
    &&& json matches Some(JsonView::Array(items))
    &&& items.len() == hashes.len()
    &&& forall|i: int|
        0 <= i < hashes.len() ==> #[trigger] items[i] == JsonView::Text(hash_text(hashes[i]@))
}

/// The fee histogram is replied whole: one item for each bin of the index, in order,
/// and item `i` is the pair of the feerate and the size of bin `i`.
pub proof fn lemma_histogram_reply(
    s: Settings,
    subscriptions: Seq<Subscription>,
    params: Seq<JsonView>,
    w: World,
    t: int,
)
    ensures
        ({
            let run = command_run(
                s,
                subscriptions,
                "mempool.get_fee_histogram"@,
                params,
                w,
                t,
            );
            let bins = w(t).fee_histogram;
            &&& run matches Some(run)
            &&& run.asks == seq![LookupView::FeeHistogram]
            &&& run.outcome.change is Nothing
            &&& run.outcome.reply matches Ok(JsonView::Array(items))
            &&& items.len() == bins.len()
            &&& forall|i: int|
                0 <= i < bins.len() ==> (#[trigger] items[i] matches JsonView::Array(pair)
                    && pair.len() == 2 && pair[0] == bins[i].0 && pair[1] == JsonView::Unsigned(
                    bins[i].1,
                ))
        }),
{
    lemma_methods(s, subscriptions, params, w, t);
    assert(seq![LookupView::FeeHistogram] + Seq::empty() =~= seq![LookupView::FeeHistogram]);
}

/// A parameter is the one at its place, if there are as many.
pub proof fn lemma_param_placed(params: Seq<JsonView>, i: int)
    ensures
        0 <= i < params.len() ==> param(params, i) == Some(params[i]),
        i >= params.len() ==> param(params, i) is None,
{
}

/// A number is read as it is given. One that is missing is an error, unless it has a
/// default; another value is an error in any case.
pub proof fn lemma_number_read(val: Option<JsonView>, name: Seq<char>, default: usize)
    ensures
        (match val {
            None => {
                &&& usize_param(val, name) matches Err(e)
                &&& e.message == "missing "@ + name
                &&& e.causes.len() == 0
                &&& usize_param_or(val, name, default) == Ok::<usize, ErrorView>(default)
            },
            Some(JsonView::Unsigned(n)) => {
                &&& n <= usize::MAX ==> (usize_param(val, name) matches Ok(m) && m == n)
                &&& usize_param(val, name) is Ok
                &&& usize_param_or(val, name, default) == usize_param(val, name)
            },
            Some(_) => {
                &&& usize_param(val, name) matches Err(e)
                &&& e.message == "non-integer "@ + name
                &&& e.causes.len() == 0
                &&& usize_param_or(val, name, default) == usize_param(val, name)
            },
        }),
{
}

/// A truth value is read as it is given. One that is missing is an error, unless it
/// has a default; another value is an error in any case.
pub proof fn lemma_truth_read(val: Option<JsonView>, name: Seq<char>, default: bool)
    ensures
        (match val {
            None => {
                &&& bool_param(val, name) matches Err(e)
                &&& e.message == "missing "@ + name
                &&& e.causes.len() == 0
                &&& bool_param_or(val, name, default) == Ok::<bool, ErrorView>(default)
            },
            Some(JsonView::Bool(b)) => {
                &&& bool_param(val, name) == Ok::<bool, ErrorView>(b)
                &&& bool_param_or(val, name, default) == Ok::<bool, ErrorView>(b)
            },
            Some(_) => {
                &&& bool_param(val, name) matches Err(e)
                &&& e.message == "not a bool "@ + name
                &&& e.causes.len() == 0
                &&& bool_param_or(val, name, default) == bool_param(val, name)
            },
        }),
{
}

/// `val` gives a hash by its 64 hexadecimal digits.
pub open spec fn gives_hash(val: Option<JsonView>, hash: FullHash) -> bool {
    val matches Some(JsonView::Text(text)) && hash_of_text(text) == Some(hash@)
}

/// A hash is read from its text. What is missing, no text or not the text of a hash
/// is an error that says so, and that is the cause of the error that is reported.
pub proof fn lemma_hash_read(val: Option<JsonView>, message: Seq<char>, hash: FullHash)
    ensures
        gives_hash(val, hash) ==> hash_param(val) == Ok::<FullHash, ErrorView>(hash)
            && hash_param_or(val, message) == Ok::<FullHash, ErrorView>(hash),
        hash_param(val) matches Err(e) ==> {
            &&& e.message == (match val {
                None => "missing hash"@,
                Some(JsonView::Text(_)) => "non-hex hash"@,
                Some(_) => "non-string hash"@,
            })
            &&& !(val matches Some(JsonView::Text(_))) ==> e.causes.len() == 0
            &&& hash_param_or(val, message) matches Err(f)
            &&& f.message == message
            &&& f.causes == seq![e.message] + e.causes
        },
        hash_param(val) is Ok <==> (val matches Some(JsonView::Text(text)) && hash_of_text(
            text,
        ) is Some),
        hash_param_or(val, message) is Ok <==> hash_param(val) is Ok,
{
    if gives_hash(val, hash) {
        lemma_hash_with(hash);
    }
}

/// The questions that two parts of a request ask.
proof fn lemma_asks(a: LookupView, b: LookupView, c: LookupView)
    ensures
        seq![a] + Seq::empty() == seq![a],
        seq![a] + (seq![b] + Seq::empty()) == seq![a, b],
        seq![a] + (seq![b] + (seq![c] + Seq::empty())) == seq![a, b, c],
        seq![a] + seq![b] == seq![a, b],
{
    assert(seq![a] + Seq::empty() =~= seq![a]);
    assert(seq![a] + (seq![b] + Seq::empty()) =~= seq![a, b]);
    assert(seq![a] + (seq![b] + (seq![c] + Seq::empty())) =~= seq![a, b, c]);
    assert(seq![a] + seq![b] =~= seq![a, b]);
}

/// A header is shown with its height.
pub open spec fn shows_header(json: JsonView, header: HeaderView, height: usize) -> bool {
    json == JsonView::Object(
        seq![
            ("hex"@, JsonView::Text(hex(header.encoded()))),
            ("height"@, JsonView::Unsigned(height as u64)),
        ],
    )
}

/// A client that follows the best header is replied that header and its height, and
/// is then on record as knowing it.
pub proof fn lemma_headers_subscribe_reply(
    s: Settings,
    subscriptions: Seq<Subscription>,
    params: Seq<JsonView>,
    w: World,
    t: int,
)
    ensures
        ({
            let run = command_run(
                s,
                subscriptions,
                "blockchain.headers.subscribe"@,
                params,
                w,
                t,
            );
            let best = w(t).best_header;
            &&& run matches Some(run)
            &&& run.asks == seq![LookupView::BestHeader]
            &&& run.outcome.reply matches Ok(json)
            &&& shows_header(json, best.header, best.height)
            &&& run.outcome.change == ChangeView::Follow(best)
        }),
{
    lemma_methods(s, subscriptions, params, w, t);
    lemma_asks(LookupView::BestHeader, LookupView::Now, LookupView::Now);
    let run = headers_subscribe_run(w, t);
    assert(run.outcome.reply->Ok_0->Object_0 =~= seq![
        ("hex"@, JsonView::Text(hex(w(t).best_header.header.encoded()))),
        ("height"@, JsonView::Unsigned(w(t).best_header.height as u64)),
    ]);
}

/// What the server says of itself.
pub proof fn lemma_server_replies(
    s: Settings,
    subscriptions: Seq<Subscription>,
    params: Seq<JsonView>,
    w: World,
    t: int,
)
    ensures
        ends_in(
            command_run(s, subscriptions, "server.version"@, params, w, t),
            Seq::empty(),
            Ok(
                JsonView::Array(
                    seq![
                        JsonView::Text("electrs-esplora "@ + s.version@),
                        JsonView::Text("1.4"@),
                    ],
                ),
            ),
        ),
        ends_in(
            command_run(s, subscriptions, "server.banner"@, params, w, t),
            Seq::empty(),
            Ok(JsonView::Text(s.banner@)),
        ),
        ends_in(
            command_run(s, subscriptions, "server.donation_address"@, params, w, t),
            Seq::empty(),
            Ok(JsonView::Null),
        ),
        ends_in(
            command_run(s, subscriptions, "server.ping"@, params, w, t),
            Seq::empty(),
            Ok(JsonView::Null),
        ),
{
    lemma_methods(s, subscriptions, params, w, t);
}

/// Where the server takes part in the discovery of peers, the client is replied what
/// the index says of them, as it is; else there are no peers, and no features.
pub proof fn lemma_discovery_replies(
    s: Settings,
    subscriptions: Seq<Subscription>,
    params: Seq<JsonView>,
    w: World,
    t: int,
)
    ensures
        ({
            let features = command_run(s, subscriptions, "server.features"@, params, w, t);
            let peers = command_run(s, subscriptions, "server.peers.subscribe"@, params, w, t);
            let add = command_run(s, subscriptions, "server.add_peer"@, params, w, t);
            let ask = LookupView::AddPeer(params[0]);
            match s.discovery {
                Discovery::Absent => {
                    &&& features is None
                    &&& add is None
                    &&& ends_in(peers, Seq::empty(), Ok(JsonView::Array(Seq::empty())))
                },
                Discovery::Disabled => {
                    &&& refused(features, Seq::empty(), "discovery is disabled"@, Seq::empty())
                    &&& refused(add, Seq::empty(), "discovery is disabled"@, Seq::empty())
                    &&& ends_in(peers, Seq::empty(), Ok(JsonView::Array(Seq::empty())))
                },
                Discovery::Enabled => {
                    &&& ends_in(features, seq![LookupView::OurFeatures], Ok(w(t).our_features))
                    &&& ends_in(peers, seq![LookupView::Peers], Ok(w(t).peers))
                    &&& params.len() == 0 ==> refused(
                        add,
                        Seq::empty(),
                        "missing features param"@,
                        Seq::empty(),
                    )
                    &&& params.len() > 0 ==> match (w(t).add_peer)(params[0]) {
                        Ok(_) => ends_in(add, seq![ask], Ok(JsonView::Bool(true))),
                        Err(PeerFault::InvalidFeatures(causes)) => refused(
                            add,
                            seq![ask],
                            "invalid features"@,
                            causes,
                        ),
                        Err(PeerFault::Refused(e)) => ends_in(add, seq![ask], Err(e)),
                    }
                },
            }
        }),
{
    lemma_methods(s, subscriptions, params, w, t);
    lemma_asks(LookupView::OurFeatures, LookupView::Now, LookupView::Now);
    lemma_asks(LookupView::Peers, LookupView::Now, LookupView::Now);
    lemma_asks(LookupView::AddPeer(params[0]), LookupView::Now, LookupView::Now);
}

/// Parameter `i` gives the number `n`; where it is missing, `n` is zero.
pub open spec fn optional_number(params: Seq<JsonView>, i: int, n: usize) -> bool {
    if params.len() > i {
        params[i] == JsonView::Unsigned(n as u64)
    } else {
        n == 0
    }
}

/// A client that asks for the header at a height is replied that header. With a
/// checkpoint it is replied its proof too: the root, and each hash of the branch.
pub proof fn lemma_block_header_reply(
    s: Settings,
    subscriptions: Seq<Subscription>,
    params: Seq<JsonView>,
    height: usize,
    cp_height: usize,
    w: World,
    t: int,
)
    requires
        params.len() > 0,
        params[0] == JsonView::Unsigned(height as u64),
        optional_number(params, 1, cp_height),
    ensures
        ({
            let run = command_run(s, subscriptions, "blockchain.block.header"@, params, w, t);
            let at = LookupView::HeaderAt(height);
            let below = LookupView::HeaderProof(height, cp_height);
            match (w(t).header_at)(height) {
                None => refused(run, seq![at], "missing header"@, Seq::empty()),
                Some(header) => if cp_height == 0 {
                    ends_in(run, seq![at], Ok(JsonView::Text(hex(header.encoded()))))
                } else {
                    match (w(t + 1).header_proof)(height, cp_height) {
                        Err(e) => ends_in(run, seq![at, below], Err(e)),
                        Ok((branch, root)) => {
                            &&& run matches Some(run)
                            &&& run.asks == seq![at, below]
                            &&& run.outcome.change is Nothing
                            &&& run.outcome.reply matches Ok(JsonView::Object(fields))
                            &&& fields.len() == 3
                            &&& fields[0] == ("header"@, JsonView::Text(hex(header.encoded())))
                            &&& fields[1] == ("root"@, JsonView::Text(hash_text(root@)))
                            &&& fields[2].0 == "branch"@
                            &&& shows_hashes(Some(fields[2].1), branch)
                        },
                    }
                },
            }
        }),
{
    lemma_methods(s, subscriptions, params, w, t);
    let below = LookupView::HeaderProof(height, cp_height);
    lemma_asks(LookupView::HeaderAt(height), below, LookupView::Now);
}

/// The headers that there are, in order and no other.
pub proof fn lemma_present_kept(headers: Seq<Option<HeaderView>>)
    ensures
        present(headers) == headers.filter(|header: Option<HeaderView>| header is Some).map_values(
            |header: Option<HeaderView>| header->0,
        ),
    decreases headers.len(),
{
    let there = |header: Option<HeaderView>| header is Some;
    let it = |header: Option<HeaderView>| header->0;
    reveal(Seq::filter);
    if headers.len() == 0 {
        assert(present(headers) =~= headers.filter(there).map_values(it));
    } else {
        let front = headers.drop_last();
        lemma_present_kept(front);
        let kept = front.filter(there);
        if there(headers.last()) {
            assert(kept.push(headers.last()).map_values(it) =~= kept.map_values(it).push(
                headers.last()->0,
            ));
        }
    }
}

/// The text of several headers is that of each, one after the other.
pub proof fn lemma_joined_headers(headers: Seq<HeaderView>)
    ensures
        joined_hex(headers) == headers.map_values(
            |header: HeaderView| hex(header.encoded()),
        ).flatten(),
    decreases headers.len(),
{
    let shown = |header: HeaderView| hex(header.encoded());
    if headers.len() == 0 {
        assert(headers.map_values(shown).flatten() =~= Seq::empty());
    } else {
        let front = headers.drop_last();
        lemma_joined_headers(front);
        front.map_values(shown).lemma_flatten_push(shown(headers.last()));
        assert(headers.map_values(shown) =~= front.map_values(shown).push(shown(headers.last())));
    }
}

/// The headers at `count` heights from `start` on, as far as there are any.
pub open spec fn headers_there(ix: Index, start: usize, count: usize) -> Seq<HeaderView> {
    Seq::new(count as nat, |i: int| (ix.header_at)((start + i) as usize)).filter(
        |header: Option<HeaderView>| header is Some,
    ).map_values(|header: Option<HeaderView>| header->0)
}

/// Fields that show several headers: how many there are, their text, one after the
/// other, and how many a request gets at most.
pub open spec fn shows_headers(
    fields: Seq<(Seq<char>, JsonView)>,
    headers: Seq<HeaderView>,
) -> bool {
    &&& fields.len() >= 3
    &&& fields[0] == ("count"@, JsonView::Unsigned(headers.len() as u64))
    &&& fields[1] == (
        "hex"@,
        JsonView::Text(
            headers.map_values(|header: HeaderView| hex(header.encoded())).flatten(),
        ),
    )
    &&& fields[2] == ("max"@, JsonView::Unsigned(2016))
}

/// Heights wrap around.
pub open spec fn wrapped(height: int) -> usize {
    if height <= usize::MAX {
        height as usize
    } else {
        (height - usize::MAX - 1) as usize
    }
}

/// A client that asks for headers from a height on is replied those that there are,
/// up to as many as it wants and no more than 2016; none where that goes past the
/// greatest height. With a checkpoint, unless it wants none, it is replied the proof
/// for the last height too.
pub proof fn lemma_block_headers_reply(
    s: Settings,
    subscriptions: Seq<Subscription>,
    params: Seq<JsonView>,
    start: usize,
    wanted: usize,
    cp_height: usize,
    w: World,
    t: int,
)
    requires
        params.len() > 1,
        params[0] == JsonView::Unsigned(start as u64),
        params[1] == JsonView::Unsigned(wanted as u64),
        optional_number(params, 2, cp_height),
    ensures
        ({
            let run = command_run(s, subscriptions, "blockchain.block.headers"@, params, w, t);
            let count = if wanted <= 2016 {
                wanted
            } else {
                2016
            };
            let end = wrapped(start + count);
            let last = wrapped(start + count - 1);
            let headers = headers_there(
                w(t),
                start,
                if start + count <= usize::MAX {
                    count
                } else {
                    0
                },
            );
            let at = LookupView::HeadersAt(start, end);
            let below = LookupView::HeaderProof(last, cp_height);
            if count == 0 || cp_height == 0 {
                &&& run matches Some(run)
                &&& run.asks == seq![at]
                &&& run.outcome.change is Nothing
                &&& run.outcome.reply matches Ok(JsonView::Object(fields))
                &&& fields.len() == 3
                &&& shows_headers(fields, headers)
            } else {
                match (w(t + 1).header_proof)(last, cp_height) {
                    Err(e) => ends_in(run, seq![at, below], Err(e)),
                    Ok((branch, root)) => {
                        &&& run matches Some(run)
                        &&& run.asks == seq![at, below]
                        &&& run.outcome.change is Nothing
                        &&& run.outcome.reply matches Ok(JsonView::Object(fields))
                        &&& fields.len() == 5
                        &&& shows_headers(fields, headers)
                        &&& fields[3] == ("root"@, JsonView::Text(hash_text(root@)))
                        &&& fields[4].0 == "branch"@
                        &&& shows_hashes(Some(fields[4].1), branch)
                    },
                }
            }
        }),
{
    lemma_methods(s, subscriptions, params, w, t);
    let count = if wanted <= 2016 {
        wanted
    } else {
        2016
    };
    let end = wrapped(start + count);
    let last = wrapped(start + count - 1);
    let there = if start + count <= usize::MAX {
        count
    } else {
        0
    };
    lemma_asks(
        LookupView::HeadersAt(start, end),
        LookupView::HeaderProof(last, cp_height),
        LookupView::Now,
    );
    let all = headers_from(w(t), start, end);
    assert(start.wrapping_add(count) == end);
    assert(all =~= Seq::new(there as nat, |i: int| (w(t).header_at)((start + i) as usize)));
    lemma_present_kept(all);
    lemma_joined_headers(present(all));
}

/// No request for headers gets more than 2016, however it counts.
pub proof fn lemma_headers_at_most(
    s: Settings,
    subscriptions: Seq<Subscription>,
    params: Seq<JsonView>,
    w: World,
    t: int,
)
    ensures
        command_run(s, subscriptions, "blockchain.block.headers"@, params, w, t) matches Some(
            run,
        ) && (run.asks.len() > 0 ==> (run.asks[0] matches LookupView::HeadersAt(start, end) && end
            - start <= 2016)),
{
    lemma_methods(s, subscriptions, params, w, t);
}

/// The estimate for a number of blocks is replied as it is; that there is none is
/// an error that names the number. The index is asked with the low 16 bits of it.
pub proof fn lemma_estimatefee_reply(
    s: Settings,
    subscriptions: Seq<Subscription>,
    params: Seq<JsonView>,
    blocks: usize,
    w: World,
    t: int,
)
    requires
        params.len() > 0,
        params[0] == JsonView::Unsigned(blocks as u64),
    ensures
        ({
            let run = command_run(s, subscriptions, "blockchain.estimatefee"@, params, w, t);
            let asked = (blocks as int % 0x1_0000) as u16;
            let ask = LookupView::FeeEstimate(asked);
            match (w(t).fee_estimate)(asked) {
                Some(rate) => ends_in(run, seq![ask], Ok(rate)),
                None => refused(
                    run,
                    seq![ask],
                    "cannot estimate fee for "@ + decimal(blocks as int) + " blocks"@,
                    Seq::empty(),
                ),
            }
        }),
{
    lemma_methods(s, subscriptions, params, w, t);
    assert(blocks as u16 == blocks % 0x1_0000) by (bit_vector);
    lemma_asks(LookupView::FeeEstimate(blocks as u16), LookupView::Now, LookupView::Now);
}

/// The lowest fee rate that is relayed is replied as the index says it.
pub proof fn lemma_relayfee_reply(
    s: Settings,
    subscriptions: Seq<Subscription>,
    params: Seq<JsonView>,
    w: World,
    t: int,
)
    ensures
        ends_in(
            command_run(s, subscriptions, "blockchain.relayfee"@, params, w, t),
            seq![LookupView::RelayFee],
            w(t).relay_fee,
        ),
{
    lemma_methods(s, subscriptions, params, w, t);
    lemma_asks(LookupView::RelayFee, LookupView::Now, LookupView::Now);
}

/// The integer that a JSON value is, if it is one.
pub open spec fn integer_of(json: JsonView) -> Option<int> {
    match json {
        JsonView::Unsigned(n) => Some(n as int),
        JsonView::Negative(n) => Some(n as int),
        _ => None,
    }
}

/// The balance of a script: what it has received in the chain less what it has
/// spent there, and the same for the mempool, which can be negative.
pub proof fn lemma_balance_reply(
    s: Settings,
    subscriptions: Seq<Subscription>,
    params: Seq<JsonView>,
    script_hash: FullHash,
    w: World,
    t: int,
)
    requires
        params.len() > 0,
        gives_hash(Some(params[0]), script_hash),
        (w(t).balance)(script_hash).wf(),
    ensures
        ({
            let run = command_run(
                s,
                subscriptions,
                "blockchain.scripthash.get_balance"@,
                params,
                w,
                t,
            );
            let balance = (w(t).balance)(script_hash);
            &&& s.chain == Chain::Liquid ==> run is None
            &&& s.chain == Chain::Bitcoin ==> {
                &&& run matches Some(run)
                &&& run.asks == seq![LookupView::Balance(script_hash)]
                &&& run.outcome.change is Nothing
                &&& run.outcome.reply matches Ok(JsonView::Object(fields))
                &&& fields.len() == 2
                &&& fields[0].0 == "confirmed"@
                &&& integer_of(fields[0].1) == Some(balance.chain_funded - balance.chain_spent)
                &&& fields[1].0 == "unconfirmed"@
                &&& integer_of(fields[1].1) == Some(
                    balance.mempool_funded - balance.mempool_spent,
                )
            }
        }),
{
    lemma_methods(s, subscriptions, params, w, t);
    lemma_hash_read(Some(params[0]), "bad script_hash"@, script_hash);
    lemma_asks(LookupView::Balance(script_hash), LookupView::Now, LookupView::Now);
}

/// `entry` lists an unspent output: the height of its block, or zero in the mempool,
/// its place in its transaction, the hash of that, and what it holds.
pub open spec fn lists_unspent(entry: JsonView, utxo: UtxoView) -> bool {
    &&& entry matches JsonView::Object(fields)
    &&& fields.len() >= 3
    &&& fields[0] == (
        "height"@,
        JsonView::Unsigned(
            match utxo.confirmed {
                Some(block) => block.height as u64,
                None => 0,
            },
        ),
    )
    &&& fields[1] == ("tx_pos"@, JsonView::Unsigned(utxo.vout as u64))
    &&& fields[2] == ("tx_hash"@, JsonView::Text(hash_text(utxo.txid@)))
    &&& match utxo.coins {
        CoinsView::Bitcoin(value) => {
            &&& fields.len() == 4
            &&& fields[3] == ("value"@, JsonView::Unsigned(value))
        },
        CoinsView::Liquid(value, asset, nonce) => {
            &&& fields.len() == 6
            &&& fields[3] == ("value"@, value)
            &&& fields[4] == ("asset"@, asset)
            &&& fields[5] == ("nonce"@, nonce)
        },
    }
}

/// The unspent outputs of a script are listed with one entry for each, in order.
pub proof fn lemma_listunspent_reply(
    s: Settings,
    subscriptions: Seq<Subscription>,
    params: Seq<JsonView>,
    script_hash: FullHash,
    w: World,
    t: int,
)
    requires
        params.len() > 0,
        gives_hash(Some(params[0]), script_hash),
    ensures
        ({
            let run = command_run(
                s,
                subscriptions,
                "blockchain.scripthash.listunspent"@,
                params,
                w,
                t,
            );
            let ask = LookupView::Unspent(script_hash);
            match (w(t).unspent)(script_hash) {
                Err(e) => ends_in(run, seq![ask], Err(e)),
                Ok(utxos) => {
                    &&& run matches Some(run)
                    &&& run.asks == seq![ask]
                    &&& run.outcome.change is Nothing
                    &&& run.outcome.reply matches Ok(JsonView::Array(entries))
                    &&& entries.len() == utxos.len()
                    &&& forall|i: int|
                        0 <= i < utxos.len() ==> lists_unspent(#[trigger] entries[i], utxos[i])
                },
            }
        }),
{
    lemma_methods(s, subscriptions, params, w, t);
    lemma_hash_read(Some(params[0]), "bad script_hash"@, script_hash);
    lemma_asks(LookupView::Unspent(script_hash), LookupView::Now, LookupView::Now);
}

/// The history of a script within the limit is listed with one entry for each
/// transaction, in order, under its hash and at its height. Fees and unconfirmed
/// parents are asked for once, of the transactions in the mempool, if there are any.
pub proof fn lemma_history_reply(
    s: Settings,
    subscriptions: Seq<Subscription>,
    params: Seq<JsonView>,
    script_hash: FullHash,
    w: World,
    t: int,
)
    requires
        s.txs_limit < usize::MAX,
        params.len() > 0,
        gives_hash(Some(params[0]), script_hash),
        heights_fit((w(t).history)(script_hash, (s.txs_limit + 1) as usize)),
    ensures
        ({
            let run = command_run(
                s,
                subscriptions,
                "blockchain.scripthash.get_history"@,
                params,
                w,
                t,
            );
            let items = (w(t).history)(script_hash, (s.txs_limit + 1) as usize);
            let pending = items.filter(|item: HistoryItem| item.block is None).map_values(
                |item: HistoryItem| item.txid,
            );
            let ask = LookupView::History(script_hash, (s.txs_limit + 1) as usize);
            if items.len() > s.txs_limit {
                refused(run, seq![ask], "Too many history entries"@, Seq::empty())
            } else {
                &&& run matches Some(run)
                &&& run.asks == (if pending.len() == 0 {
                    seq![ask]
                } else {
                    seq![
                        ask,
                        LookupView::MempoolFees(pending),
                        LookupView::UnconfirmedParents(pending),
                    ]
                })
                &&& run.outcome.change is Nothing
                &&& run.outcome.reply matches Ok(JsonView::Array(entries))
                &&& entries.len() == items.len()
                &&& forall|i: int|
                    0 <= i < items.len() ==> lists(
                        #[trigger] entries[i],
                        items[i],
                        (w(t + 1).mempool_fee)(items[i].txid),
                        (w(t + 2).unconfirmed_parents)(items[i].txid),
                    )
            }
        }),
{
    lemma_methods(s, subscriptions, params, w, t);
    lemma_hash_read(Some(params[0]), "bad script_hash"@, script_hash);
    let items = (w(t).history)(script_hash, (s.txs_limit + 1) as usize);
    let txids = mempool_txids(items);
    let ask = LookupView::History(script_hash, (s.txs_limit + 1) as usize);
    lemma_asks(ask, LookupView::MempoolFees(txids), LookupView::UnconfirmedParents(txids));
    lemma_mempool_kept(items);
    lemma_history_entries(items, w(t + 1).mempool_fee, w(t + 2).unconfirmed_parents);
    if txids.len() == 0 {
        assert(txids.map_values(w(t + 1).mempool_fee) =~= Seq::empty());
        assert(txids.map_values(w(t + 2).unconfirmed_parents) =~= Seq::empty());
    }
}

/// A client that follows a script with no more history than is served is told its
/// hash: the digest of what sums the whole history up, or nothing where there is
/// none. The script is then followed under that hash.
pub proof fn lemma_subscribe_reply(
    s: Settings,
    subscriptions: Seq<Subscription>,
    params: Seq<JsonView>,
    script_hash: FullHash,
    digest: FullHash,
    w: World,
    t: int,
)
    requires
        s.txs_limit < usize::MAX,
        params.len() > 0,
        gives_hash(Some(params[0]), script_hash),
        heights_fit((w(t).history)(script_hash, (s.txs_limit + 1) as usize)),
        digest@ == sha256(
            encode_utf8(
                status_parts(
                    (w(t).history)(script_hash, (s.txs_limit + 1) as usize),
                    w(t + 1).unconfirmed_parents,
                ).flatten(),
            ),
        ),
    ensures
        ({
            let run = command_run(
                s,
                subscriptions,
                "blockchain.scripthash.subscribe"@,
                params,
                w,
                t,
            );
            let items = (w(t).history)(script_hash, (s.txs_limit + 1) as usize);
            let pending = items.filter(|item: HistoryItem| item.block is None).map_values(
                |item: HistoryItem| item.txid,
            );
            let ask = LookupView::History(script_hash, (s.txs_limit + 1) as usize);
            let asks = if pending.len() == 0 {
                seq![ask]
            } else {
                seq![ask, LookupView::UnconfirmedParents(pending)]
            };
            if items.len() > s.txs_limit {
                refused(run, seq![ask], "Too many history entries"@, Seq::empty())
            } else if items.len() == 0 {
                changes(run, asks, JsonView::Null, ChangeView::Subscribe(script_hash, None))
            } else {
                changes(
                    run,
                    asks,
                    JsonView::Text(hex(digest@)),
                    ChangeView::Subscribe(script_hash, Some(digest)),
                )
            }
        }),
{
    lemma_methods(s, subscriptions, params, w, t);
    lemma_hash_read(Some(params[0]), "bad script_hash"@, script_hash);
    let items = (w(t).history)(script_hash, (s.txs_limit + 1) as usize);
    let txids = mempool_txids(items);
    let ask = LookupView::History(script_hash, (s.txs_limit + 1) as usize);
    lemma_asks(ask, LookupView::UnconfirmedParents(txids), LookupView::Now);
    lemma_mempool_kept(items);
    lemma_status_hash_digest(items, w(t + 1).unconfirmed_parents, digest);
}

/// A client that follows a script no longer is told whether it did.
pub proof fn lemma_unsubscribe_reply(
    s: Settings,
    subscriptions: Seq<Subscription>,
    params: Seq<JsonView>,
    script_hash: FullHash,
    w: World,
    t: int,
)
    requires
        params.len() > 0,
        gives_hash(Some(params[0]), script_hash),
    ensures
        changes(
            command_run(s, subscriptions, "blockchain.scripthash.unsubscribe"@, params, w, t),
            Seq::empty(),
            JsonView::Bool(
                exists|i: int|
                    0 <= i < subscriptions.len() && (#[trigger] subscriptions[i]).script_hash
                        == script_hash,
            ),
            ChangeView::Unsubscribe(script_hash),
        ),
{
    lemma_methods(s, subscriptions, params, w, t);
    lemma_hash_read(Some(params[0]), "bad script_hash"@, script_hash);
}

/// A transaction is sent to the network as it is given. Where the network takes it,
/// the client is told its hash, and all subscriptions are checked.
pub proof fn lemma_broadcast_reply(
    s: Settings,
    subscriptions: Seq<Subscription>,
    params: Seq<JsonView>,
    w: World,
    t: int,
)
    ensures
        ({
            let run = command_run(
                s,
                subscriptions,
                "blockchain.transaction.broadcast"@,
                params,
                w,
                t,
            );
            if params.len() == 0 {
                refused(run, Seq::empty(), "missing tx"@, Seq::empty())
            } else if !(params[0] is Text) {
                refused(run, Seq::empty(), "non-string tx"@, Seq::empty())
            } else {
                let ask = LookupView::Broadcast(params[0]->Text_0);
                match (w(t).broadcast)(params[0]->Text_0) {
                    Err(e) => ends_in(run, seq![ask], Err(e)),
                    Ok(txid) => changes(
                        run,
                        seq![ask],
                        JsonView::Text(hash_text(txid@)),
                        ChangeView::Rescan,
                    ),
                }
            }
        }),
{
    lemma_methods(s, subscriptions, params, w, t);
    if params.len() > 0 && params[0] is Text {
        lemma_asks(LookupView::Broadcast(params[0]->Text_0), LookupView::Now, LookupView::Now);
    }
}

/// A transaction is replied as the hexadecimal text of all of its bytes.
pub proof fn lemma_transaction_reply(
    s: Settings,
    subscriptions: Seq<Subscription>,
    params: Seq<JsonView>,
    txid: Txid,
    w: World,
    t: int,
)
    requires
        params.len() > 0,
        gives_hash(Some(params[0]), txid),
    ensures
        ({
            let run = command_run(s, subscriptions, "blockchain.transaction.get"@, params, w, t);
            let ask = LookupView::RawTransaction(txid);
            if params.len() == 1 || params[1] == JsonView::Bool(false) {
                match (w(t).raw_transaction)(txid) {
                    Some(raw) => ends_in(run, seq![ask], Ok(JsonView::Text(hex(raw)))),
                    None => refused(run, seq![ask], "missing transaction"@, Seq::empty()),
                }
            } else if params[1] == JsonView::Bool(true) {
                refused(
                    run,
                    Seq::empty(),
                    "verbose transactions are currently unsupported"@,
                    Seq::empty(),
                )
            } else {
                refused(run, Seq::empty(), "non-bool verbose value"@, Seq::empty())
            }
        }),
{
    lemma_methods(s, subscriptions, params, w, t);
    lemma_hash_read(Some(params[0]), "bad tx_hash"@, txid);
    lemma_asks(LookupView::RawTransaction(txid), LookupView::Now, LookupView::Now);
}

/// Where the index has a proof of a transaction in the block that confirms it, the
/// client is replied all of it: the text of each hash of the branch, in order, and
/// the position, with the height of the block.
pub proof fn lemma_merkle_reply(
    s: Settings,
    subscriptions: Seq<Subscription>,
    params: Seq<JsonView>,
    txid: Txid,
    height: usize,
    w: World,
    t: int,
)
    requires
        params.len() > 1,
        gives_hash(Some(params[0]), txid),
        params[1] == JsonView::Unsigned(height as u64),
    ensures
        ({
            let run = command_run(
                s,
                subscriptions,
                "blockchain.transaction.get_merkle"@,
                params,
                w,
                t,
            );
            let ask = LookupView::ConfirmingBlock(txid);
            match (w(t).confirming_block)(txid) {
                None => refused(run, seq![ask], "tx not found or is unconfirmed"@, Seq::empty()),
                Some(block) => if block.height != height {
                    refused(
                        run,
                        seq![ask],
                        "invalid confirmation height provided"@,
                        Seq::empty(),
                    )
                } else {
                    let ask2 = LookupView::TransactionProof(txid, block.hash);
                    match (w(t + 1).transaction_proof)(txid, block.hash) {
                        None => refused(
                            run,
                            seq![ask, ask2],
                            "cannot create merkle proof"@,
                            Seq::empty(),
                        ),
                        Some((branch, pos)) => {
                            &&& run matches Some(run)
                            &&& run.asks == seq![ask, ask2]
                            &&& run.outcome.change is Nothing
                            &&& run.outcome.reply matches Ok(json)
                            &&& json matches JsonView::Object(fields)
                            &&& fields.len() == 3
                            &&& json.field("block_height"@) == Some(
                                JsonView::Unsigned(block.height as u64),
                            )
                            &&& shows_hashes(json.field("merkle"@), branch)
                            &&& json.field("pos"@) == Some(JsonView::Unsigned(pos as u64))
                        },
                    }
                },
            }
        }),
{
    lemma_methods(s, subscriptions, params, w, t);
    lemma_hash_read(Some(params[0]), "bad tx_hash"@, txid);
    let ask = LookupView::ConfirmingBlock(txid);
    if let Some(block) = (w(t).confirming_block)(txid) {
        lemma_asks(ask, LookupView::TransactionProof(txid, block.hash), LookupView::Now);
        let run = transaction_get_merkle_run(params, w, t);
        if block.height == height && run.outcome.reply is Ok {
            reveal_strlit("block_height");
            reveal_strlit("merkle");
            reveal_strlit("pos");
            assert("block_height"@[0] == 'b' && "merkle"@[0] == 'm' && "pos"@[0] == 'p');
            let fields = run.outcome.reply->Ok_0->Object_0;
            lemma_field_found(fields, 0);
            lemma_field_found(fields, 1);
            lemma_field_found(fields, 2);
        }
    } else {
        lemma_asks(ask, LookupView::Now, LookupView::Now);
    }
}

/// Parameter `i` gives a truth value; where it is missing, that is false.
pub open spec fn optional_truth(params: Seq<JsonView>, i: int, b: bool) -> bool {
    if params.len() > i {
        params[i] == JsonView::Bool(b)
    } else {
        !b
    }
}

/// The transaction at a position in a block is replied by its hash, and with its
/// whole branch where that is wanted.
pub proof fn lemma_id_from_pos_reply(
    s: Settings,
    subscriptions: Seq<Subscription>,
    params: Seq<JsonView>,
    height: usize,
    pos: usize,
    merkle: bool,
    w: World,
    t: int,
)
    requires
        params.len() > 1,
        params[0] == JsonView::Unsigned(height as u64),
        params[1] == JsonView::Unsigned(pos as u64),
        optional_truth(params, 2, merkle),
    ensures
        ({
            let run = command_run(
                s,
                subscriptions,
                "blockchain.transaction.id_from_pos"@,
                params,
                w,
                t,
            );
            let ask = LookupView::TransactionAt(height, pos, merkle);
            match (w(t).transaction_at)(height, pos, merkle) {
                Err(e) => ends_in(run, seq![ask], Err(e)),
                Ok((txid, branch)) => if !merkle {
                    ends_in(run, seq![ask], Ok(JsonView::Text(hash_text(txid@))))
                } else {
                    &&& run matches Some(run)
                    &&& run.asks == seq![ask]
                    &&& run.outcome.change is Nothing
                    &&& run.outcome.reply matches Ok(JsonView::Object(fields))
                    &&& fields.len() == 2
                    &&& fields[0] == ("tx_hash"@, JsonView::Text(hash_text(txid@)))
                    &&& fields[1].0 == "merkle"@
                    &&& shows_hashes(Some(fields[1].1), branch)
                },
            }
        }),
{
    lemma_methods(s, subscriptions, params, w, t);
    lemma_asks(LookupView::TransactionAt(height, pos, merkle), LookupView::Now, LookupView::Now);
}

/// The message about a number that is missing, or that is none.
pub open spec fn number_fault(val: Option<JsonView>, name: Seq<char>) -> Seq<char> {
    if val is None {
        "missing "@ + name
    } else {
        "non-integer "@ + name
    }
}

/// There is a number in parameter `i`.
pub open spec fn has_number(params: Seq<JsonView>, i: int) -> bool {
    params.len() > i && params[i] is Unsigned
}

/// Parameter `i` is there, and is no number.
pub open spec fn has_other(params: Seq<JsonView>, i: int) -> bool {
    params.len() > i && !(params[i] is Unsigned)
}

/// A request about blocks whose numbers are missing, or are none, is refused before
/// anything is asked, with a message that names the first of them.
pub proof fn lemma_numbers_demanded(
    s: Settings,
    subscriptions: Seq<Subscription>,
    params: Seq<JsonView>,
    w: World,
    t: int,
)
    ensures
        ({
            let header = command_run(s, subscriptions, "blockchain.block.header"@, params, w, t);
            let headers = command_run(s, subscriptions, "blockchain.block.headers"@, params, w, t);
            let estimate = command_run(s, subscriptions, "blockchain.estimatefee"@, params, w, t);
            let id = command_run(
                s,
                subscriptions,
                "blockchain.transaction.id_from_pos"@,
                params,
                w,
                t,
            );
            let first = if params.len() > 0 {
                Some(params[0])
            } else {
                None
            };
            let second = if params.len() > 1 {
                Some(params[1])
            } else {
                None
            };
            let none = Seq::<LookupView>::empty();
            &&& !has_number(params, 0) ==> {
                &&& refused(header, none, number_fault(first, "height"@), Seq::empty())
                &&& refused(headers, none, number_fault(first, "start_height"@), Seq::empty())
                &&& refused(estimate, none, number_fault(first, "blocks_count"@), Seq::empty())
                &&& refused(id, none, number_fault(first, "height"@), Seq::empty())
            }
            &&& has_number(params, 0) && has_other(params, 1) ==> refused(
                header,
                none,
                "non-integer "@ + "cp_height"@,
                Seq::empty(),
            )
            &&& has_number(params, 0) && !has_number(params, 1) ==> {
                &&& refused(headers, none, number_fault(second, "count"@), Seq::empty())
                &&& refused(id, none, number_fault(second, "tx_pos"@), Seq::empty())
            }
            &&& has_number(params, 0) && has_number(params, 1) && has_other(params, 2) ==> refused(
                headers,
                none,
                "non-integer "@ + "cp_height"@,
                Seq::empty(),
            )
            &&& has_number(params, 0) && has_number(params, 1) && params.len() > 2 && !(
            params[2] is Bool) ==> refused(id, none, "not a bool "@ + "merkle"@, Seq::empty())
        }),
{
    lemma_methods(s, subscriptions, params, w, t);
}

/// The first parameter is missing, no text, or not the text of a hash.
pub open spec fn lacks_hash(params: Seq<JsonView>) -> bool {
    params.len() > 0 ==> (params[0] matches JsonView::Text(text) ==> hash_of_text(text) is None)
}

/// A request fails before it asks anything, with a message, because of what is wrong
/// with the hash that it should give.
pub open spec fn refused_for_hash(
    run: Option<Run>,
    message: Seq<char>,
    params: Seq<JsonView>,
) -> bool {
    &&& run matches Some(run)
    &&& run.asks.len() == 0
    &&& run.outcome.change is Nothing
    &&& run.outcome.reply matches Err(e)
    &&& e.message == message
    &&& e.causes.len() > 0
    &&& e.causes[0] == (if params.len() == 0 {
        "missing hash"@
    } else if params[0] is Text {
        "non-hex hash"@
    } else {
        "non-string hash"@
    })
}

/// A request about a script or a transaction that gives no hash is refused before
/// anything is asked.
pub proof fn lemma_hash_demanded(
    s: Settings,
    subscriptions: Seq<Subscription>,
    params: Seq<JsonView>,
    w: World,
    t: int,
)
    requires
        lacks_hash(params),
    ensures
        s.chain == Chain::Bitcoin ==> refused_for_hash(
            command_run(s, subscriptions, "blockchain.scripthash.get_balance"@, params, w, t),
            "bad script_hash"@,
            params,
        ),
        refused_for_hash(
            command_run(s, subscriptions, "blockchain.scripthash.get_history"@, params, w, t),
            "bad script_hash"@,
            params,
        ),
        refused_for_hash(
            command_run(s, subscriptions, "blockchain.scripthash.listunspent"@, params, w, t),
            "bad script_hash"@,
            params,
        ),
        refused_for_hash(
            command_run(s, subscriptions, "blockchain.scripthash.subscribe"@, params, w, t),
            "bad script_hash"@,
            params,
        ),
        refused_for_hash(
            command_run(s, subscriptions, "blockchain.scripthash.unsubscribe"@, params, w, t),
            "bad script_hash"@,
            params,
        ),
        refused_for_hash(
            command_run(s, subscriptions, "blockchain.transaction.get"@, params, w, t),
            "bad tx_hash"@,
            params,
        ),
        refused_for_hash(
            command_run(s, subscriptions, "blockchain.transaction.get_merkle"@, params, w, t),
            "bad tx_hash"@,
            params,
        ),
{
    lemma_methods(s, subscriptions, params, w, t);
}

/// A request for a proof that gives no height is refused before anything is asked.
pub proof fn lemma_merkle_height_demanded(
    s: Settings,
    subscriptions: Seq<Subscription>,
    params: Seq<JsonView>,
    w: World,
    t: int,
)
    requires
        !lacks_hash(params),
        !has_number(params, 1),
    ensures
        refused(
            command_run(s, subscriptions, "blockchain.transaction.get_merkle"@, params, w, t),
            Seq::empty(),
            number_fault(
                if params.len() > 1 {
                    Some(params[1])
                } else {
                    None
                },
                "height"@,
            ),
            Seq::empty(),
        ),
{
    lemma_methods(s, subscriptions, params, w, t);
}

} // verus!
