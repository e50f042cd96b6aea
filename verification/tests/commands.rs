use electrs::chain::{BitcoinHeader, BlockHeader, BlockId, HeaderEntry};
use electrs::hash::FullHash;
use electrs::json::{parse_json, render_json, Json};
use electrs::messages::Message;
use electrs::params::RpcError;
use electrs::query::{Answer, Balance, Coins, HistoryItem, Lookup, PeerOutcome, Utxo};
use electrs::session::{Effect, Fault, Next, Session, Step};
use electrs::settings::{Chain, Discovery, RpcLogging, Settings};

fn settings() -> Settings {
    Settings {
        chain: Chain::Bitcoin,
        txs_limit: 3,
        rpc_logging: RpcLogging { enabled: false, hide_params: false, anonymize_ip: false },
        salt: "salt".to_string(),
        ip: "127.0.0.1".to_string(),
        port: 50001,
        version: "0.4.1".to_string(),
        banner: "Welcome".to_string(),
        discovery: Discovery::Enabled,
    }
}

fn request(method: &str, params: &str) -> Message {
    Message::Request(format!(
        "{{\"jsonrpc\":\"2.0\",\"id\":7,\"method\":\"{}\",\"params\":{}}}",
        method, params
    ))
}

fn question(step: &Step) -> String {
    match &step.next {
        Next::Ask(lookup) => format!("{:?}", lookup),
        other => panic!("no question: {:?}", other),
    }
}

// The one line that is sent, without its end. Nothing else is told anyone.
fn sent_line(step: &Step) -> String {
    let told: Vec<&Effect> = step.effects.iter().filter(|effect| !is_measure(effect)).collect();
    match (&told[..], &step.next) {
        ([Effect::Send(line)], Next::Wait) => line.strip_suffix("\n").unwrap().to_string(),
        _ => panic!("{:?}", step),
    }
}

fn is_measure(effect: &Effect) -> bool {
    match effect {
        Effect::StartTimer(_) | Effect::StopTimer => true,
        Effect::Subscribed | Effect::Unsubscribed => true,
        Effect::Connected | Effect::Disconnected | Effect::Forgotten(_) => true,
        Effect::Failed(..) => true,
        Effect::Update { .. } | Effect::Log(_) | Effect::Send(_) => false,
    }
}

fn result_of(step: &Step) -> String {
    let line = sent_line(step);
    let reply = parse_json(&line).unwrap();
    assert!(matches!(reply.get("id"), Some(Json::Unsigned(7))));
    assert!(reply.get("error").is_none(), "{}", line);
    render_json(reply.get("result").unwrap())
}

fn error_of(step: &Step) -> String {
    let line = sent_line(step);
    let reply = parse_json(&line).unwrap();
    assert!(reply.get("result").is_none(), "{}", line);
    match reply.get("error") {
        Some(Json::Text(message)) => message.clone(),
        _ => panic!("{}", line),
    }
}

// Asks a question, checks it, and gives the result for an answer.
fn ask(method: &str, params: &str, expected: &str, answer: Answer) -> Step {
    let mut session = Session::new(settings());
    let step = session.handle_replies(request(method, params));
    match &step.effects[..] {
        [Effect::StartTimer(label)] => assert_eq!(label, method),
        other => panic!("{:?}", other),
    }
    assert_eq!(question(&step), expected);
    session.resume(answer)
}

fn at_once(method: &str, params: &str) -> Step {
    Session::new(settings()).handle_replies(request(method, params))
}

fn header(nonce: u32) -> BlockHeader {
    BlockHeader::Bitcoin(BitcoinHeader {
        version: 1,
        prev_blockhash: [0; 32],
        merkle_root: [
            0x3b, 0xa3, 0xed, 0xfd, 0x7a, 0x7b, 0x12, 0xb2, 0x7a, 0xc7, 0x2c, 0x3e, 0x67, 0x76,
            0x8f, 0x61, 0x7f, 0xc8, 0x1b, 0xc3, 0x88, 0x8a, 0x51, 0x32, 0x3a, 0x9f, 0xb8, 0xaa,
            0x4b, 0x1e, 0x5e, 0x4a,
        ],
        time: 1231006505,
        bits: 0x1d00ffff,
        nonce,
    })
}

// The first block header, in hexadecimal, as everybody knows it.
const GENESIS: &str = "0100000000000000000000000000000000000000000000000000000000000000000000003ba3edfd7a7b12b27ac72c3e67768f617fc81bc3888a51323a9fb8aa4b1e5e4a29ab5f49ffff001d1dac2b7c";
const NONCE: u32 = 2083236893;

fn text_of(hash_byte: u8) -> String {
    format!("{:02x}", hash_byte).repeat(32)
}

fn quoted(hash_byte: u8) -> String {
    format!("[\"{}\"]", text_of(hash_byte))
}

fn shown(hash: FullHash) -> String {
    format!("{:?}", hash)
}

#[test]
fn headers_subscribe_follows_the_best_header() {
    let entry = HeaderEntry { height: 5, hash: [9; 32], header: header(NONCE) };
    let step = ask("blockchain.headers.subscribe", "[]", "BestHeader", Answer::BestHeader(entry));
    assert_eq!(result_of(&step), format!("{{\"height\":5,\"hex\":\"{}\"}}", GENESIS));
}

#[test]
fn block_header_with_and_without_proof() {
    let method = "blockchain.block.header";
    let step = ask(method, "[8]", "HeaderAt(8)", Answer::HeaderAt(Some(header(NONCE))));
    assert_eq!(result_of(&step), format!("\"{}\"", GENESIS));
    let step = ask(method, "[8, 0]", "HeaderAt(8)", Answer::HeaderAt(None));
    assert_eq!(error_of(&step), "missing header");

    let mut session = Session::new(settings());
    let step = session.handle_replies(request(method, "[8, 10]"));
    assert_eq!(question(&step), "HeaderAt(8)");
    let step = session.resume(Answer::HeaderAt(Some(header(NONCE))));
    assert_eq!(question(&step), "HeaderProof(8, 10)");
    let step = session.resume(Answer::HeaderProof(Ok((vec![[1; 32], [2; 32]], [3; 32]))));
    assert_eq!(
        result_of(&step),
        format!(
            "{{\"branch\":[\"{}\",\"{}\"],\"header\":\"{}\",\"root\":\"{}\"}}",
            text_of(1),
            text_of(2),
            GENESIS,
            text_of(3)
        )
    );

    assert_eq!(error_of(&at_once(method, "[]")), "missing height");
    assert_eq!(error_of(&at_once(method, "[-1]")), "non-integer height");
    assert_eq!(error_of(&at_once(method, "[1.5]")), "non-integer height");
    assert_eq!(error_of(&at_once(method, "[1, \"2\"]")), "non-integer cp_height");
}

#[test]
fn block_header_proof_can_fail() {
    let mut session = Session::new(settings());
    session.handle_replies(request("blockchain.block.header", "[8, 3]"));
    session.resume(Answer::HeaderAt(Some(header(1))));
    let step = session.resume(Answer::HeaderProof(Err(RpcError::new("cp_height not ok"))));
    assert_eq!(error_of(&step), "cp_height not ok");
}

#[test]
fn block_headers_are_joined_and_counted() {
    let method = "blockchain.block.headers";
    let found = vec![Some(header(NONCE)), Some(header(NONCE)), None];
    let step = ask(method, "[4, 3]", "HeadersAt(4, 7)", Answer::HeadersAt(found));
    assert_eq!(
        result_of(&step),
        format!("{{\"count\":2,\"hex\":\"{}{}\",\"max\":2016}}", GENESIS, GENESIS)
    );

    // no more than the limit is asked for
    let step = at_once(method, "[100, 5000]");
    assert_eq!(question(&step), "HeadersAt(100, 2116)");

    // none is asked for, so none is proved
    let step = ask(method, "[4, 0, 9]", "HeadersAt(4, 4)", Answer::HeadersAt(vec![]));
    assert_eq!(result_of(&step), "{\"count\":0,\"hex\":\"\",\"max\":2016}");

    assert_eq!(error_of(&at_once(method, "[]")), "missing start_height");
    assert_eq!(error_of(&at_once(method, "[1]")), "missing count");
    assert_eq!(error_of(&at_once(method, "[1, true]")), "non-integer count");
    assert_eq!(error_of(&at_once(method, "[1, 1, null]")), "non-integer cp_height");
}

#[test]
fn block_headers_prove_the_last_one() {
    let mut session = Session::new(settings());
    session.handle_replies(request("blockchain.block.headers", "[4, 2, 20]"));
    let step = session.resume(Answer::HeadersAt(vec![Some(header(NONCE)), None]));
    assert_eq!(question(&step), "HeaderProof(5, 20)");
    let step = session.resume(Answer::HeaderProof(Ok((vec![], [3; 32]))));
    assert_eq!(
        result_of(&step),
        format!(
            "{{\"branch\":[],\"count\":1,\"hex\":\"{}\",\"max\":2016,\"root\":\"{}\"}}",
            GENESIS,
            text_of(3)
        )
    );

    let mut session = Session::new(settings());
    session.handle_replies(request("blockchain.block.headers", "[4, 2, 20]"));
    session.resume(Answer::HeadersAt(vec![None, None]));
    let step = session.resume(Answer::HeaderProof(Err(RpcError::new("no proof"))));
    assert_eq!(error_of(&step), "no proof");
}

#[test]
fn fee_estimates() {
    let method = "blockchain.estimatefee";
    let rate = parse_json("0.00012").unwrap();
    let step = ask(method, "[6]", "FeeEstimate(6)", Answer::FeeEstimate(Some(rate)));
    assert_eq!(result_of(&step), "0.00012");
    // the target is cut to sixteen bits, the message is not
    let step = ask(method, "[65542]", "FeeEstimate(6)", Answer::FeeEstimate(None));
    assert_eq!(error_of(&step), "cannot estimate fee for 65542 blocks");
    assert_eq!(error_of(&at_once(method, "[]")), "missing blocks_count");

    let rate = parse_json("0.00001").unwrap();
    let step = ask("blockchain.relayfee", "[]", "RelayFee", Answer::RelayFee(Ok(rate)));
    assert_eq!(result_of(&step), "0.00001");
    let failure = Answer::RelayFee(Err(RpcError::new("daemon is gone")));
    let step = ask("blockchain.relayfee", "[]", "RelayFee", failure);
    assert_eq!(error_of(&step), "daemon is gone");
}

#[test]
fn fee_histogram_is_listed() {
    let bins = vec![(parse_json("50.5").unwrap(), 60_000), (parse_json("1.0").unwrap(), 7)];
    let step = ask("mempool.get_fee_histogram", "[]", "FeeHistogram", Answer::FeeHistogram(bins));
    assert_eq!(result_of(&step), "[[50.5,60000],[1.0,7]]");
}

#[test]
fn balance_can_fall_in_the_mempool() {
    let method = "blockchain.scripthash.get_balance";
    let balance =
        Balance { chain_funded: 100, chain_spent: 30, mempool_funded: 5, mempool_spent: 25 };
    let expected = format!("Balance({})", shown([0xab; 32]));
    let step = ask(method, &quoted(0xab), &expected, Answer::Balance(balance));
    assert_eq!(result_of(&step), "{\"confirmed\":70,\"unconfirmed\":-20}");
    assert_eq!(error_of(&at_once(method, "[]")), "bad script_hash");
    assert_eq!(error_of(&at_once(method, "[5]")), "bad script_hash");
    assert_eq!(error_of(&at_once(method, "[\"xyz\"]")), "bad script_hash");
}

fn confirmed(txid_byte: u8, height: usize) -> HistoryItem {
    HistoryItem {
        txid: [txid_byte; 32],
        block: Some(BlockId { height, hash: [0xbb; 32] }),
    }
}

fn unconfirmed(txid_byte: u8) -> HistoryItem {
    HistoryItem { txid: [txid_byte; 32], block: None }
}

#[test]
fn history_lists_heights_and_fees() {
    let mut session = Session::new(settings());
    let step =
        session.handle_replies(request("blockchain.scripthash.get_history", &quoted(0xab)));
    // one more than the limit
    assert_eq!(question(&step), format!("History({}, 4)", shown([0xab; 32])));
    let items = vec![confirmed(1, 10), unconfirmed(2), unconfirmed(3)];
    let step = session.resume(Answer::History(items));
    assert_eq!(
        question(&step),
        format!("MempoolFees([{}, {}])", shown([2; 32]), shown([3; 32]))
    );
    let step = session.resume(Answer::MempoolFees(vec![Some(500), None]));
    assert_eq!(
        question(&step),
        format!("UnconfirmedParents([{}, {}])", shown([2; 32]), shown([3; 32]))
    );
    let step = session.resume(Answer::UnconfirmedParents(vec![false, true]));
    assert_eq!(
        result_of(&step),
        format!(
            "[{{\"height\":10,\"tx_hash\":\"{}\"}},\
             {{\"fee\":500,\"height\":0,\"tx_hash\":\"{}\"}},\
             {{\"height\":-1,\"tx_hash\":\"{}\"}}]",
            text_of(1),
            text_of(2),
            text_of(3)
        )
    );
}

#[test]
fn confirmed_history_needs_nothing_more() {
    let expected = format!("History({}, 4)", shown([0xab; 32]));
    let method = "blockchain.scripthash.get_history";
    let step = ask(method, &quoted(0xab), &expected, Answer::History(vec![]));
    assert_eq!(result_of(&step), "[]");
    let items = vec![confirmed(1, 10), confirmed(2, 11), confirmed(3, 11)];
    let step = ask(method, &quoted(0xab), &expected, Answer::History(items));
    assert!(parse_json(&result_of(&step)).is_ok());
    let items = vec![confirmed(1, 10), confirmed(2, 11), confirmed(3, 11), confirmed(4, 12)];
    let step = ask(method, &quoted(0xab), &expected, Answer::History(items));
    assert_eq!(error_of(&step), "Too many history entries");
}

#[test]
fn unspent_outputs_are_listed() {
    let method = "blockchain.scripthash.listunspent";
    let utxos = vec![
        Utxo {
            txid: [1; 32],
            vout: 2,
            confirmed: Some(BlockId { height: 40, hash: [0xbb; 32] }),
            coins: Coins::Bitcoin(1_000),
        },
        Utxo { txid: [2; 32], vout: 0, confirmed: None, coins: Coins::Bitcoin(7) },
    ];
    let expected = format!("Unspent({})", shown([0xab; 32]));
    let step = ask(method, &quoted(0xab), &expected, Answer::Unspent(Ok(utxos)));
    assert_eq!(
        result_of(&step),
        format!(
            "[{{\"height\":40,\"tx_hash\":\"{}\",\"tx_pos\":2,\"value\":1000}},\
             {{\"height\":0,\"tx_hash\":\"{}\",\"tx_pos\":0,\"value\":7}}]",
            text_of(1),
            text_of(2)
        )
    );
    let failure = Answer::Unspent(Err(RpcError::new("too many")));
    assert_eq!(error_of(&ask(method, &quoted(0xab), &expected, failure)), "too many");
}

#[test]
fn broadcast_checks_all_subscriptions() {
    let method = "blockchain.transaction.broadcast";
    let mut session = Session::new(settings());
    let step = session.handle_replies(request(method, "[\"0100\"]"));
    assert_eq!(question(&step), "Broadcast(\"0100\")");
    let step = session.resume(Answer::Broadcast(Ok([5; 32])));
    // as for a new block, whatever the mempool does
    match &step.effects[..] {
        [Effect::Update { dirty, tip_changed: true }, Effect::StopTimer, Effect::Send(_)] => {
            assert!(dirty.is_empty())
        }
        other => panic!("{:?}", other),
    }

    let failure = Answer::Broadcast(Err(RpcError::new("rejected")));
    let step = ask(method, "[\"0100\"]", "Broadcast(\"0100\")", failure);
    assert_eq!(error_of(&step), "rejected");
    assert_eq!(error_of(&at_once(method, "[]")), "missing tx");
    assert_eq!(error_of(&at_once(method, "[1]")), "non-string tx");
}

#[test]
fn transaction_is_given_in_hexadecimal() {
    let method = "blockchain.transaction.get";
    let expected = format!("RawTransaction({})", shown([0xab; 32]));
    let raw = Answer::RawTransaction(Some(vec![0x01, 0xff, 0x0a]));
    assert_eq!(result_of(&ask(method, &quoted(0xab), &expected, raw)), "\"01ff0a\"");
    let none = Answer::RawTransaction(None);
    assert_eq!(error_of(&ask(method, &quoted(0xab), &expected, none)), "missing transaction");

    let with = |verbose: &str| format!("[\"{}\", {}]", text_of(0xab), verbose);
    let raw = Answer::RawTransaction(Some(vec![]));
    assert_eq!(result_of(&ask(method, &with("false"), &expected, raw)), "\"\"");
    assert_eq!(
        error_of(&at_once(method, &with("true"))),
        "verbose transactions are currently unsupported"
    );
    assert_eq!(error_of(&at_once(method, &with("1"))), "non-bool verbose value");
    assert_eq!(error_of(&at_once(method, "[1]")), "bad tx_hash");
}

#[test]
fn transaction_proof_needs_the_right_height() {
    let method = "blockchain.transaction.get_merkle";
    let with = |height: &str| format!("[\"{}\", {}]", text_of(0xab), height);
    let expected = format!("ConfirmingBlock({})", shown([0xab; 32]));
    let block = BlockId { height: 100, hash: [0xcc; 32] };

    let mut session = Session::new(settings());
    let step = session.handle_replies(request(method, &with("100")));
    assert_eq!(question(&step), expected);
    let step = session.resume(Answer::ConfirmingBlock(Some(block)));
    assert_eq!(
        question(&step),
        format!("TransactionProof({}, {})", shown([0xab; 32]), shown([0xcc; 32]))
    );
    let step = session.resume(Answer::TransactionProof(Some((vec![[1; 32]], 3))));
    assert_eq!(
        result_of(&step),
        format!("{{\"block_height\":100,\"merkle\":[\"{}\"],\"pos\":3}}", text_of(1))
    );

    let mut session = Session::new(settings());
    session.handle_replies(request(method, &with("100")));
    session.resume(Answer::ConfirmingBlock(Some(block)));
    let step = session.resume(Answer::TransactionProof(None));
    assert_eq!(error_of(&step), "cannot create merkle proof");

    let other = Answer::ConfirmingBlock(Some(block));
    assert_eq!(
        error_of(&ask(method, &with("99"), &expected, other)),
        "invalid confirmation height provided"
    );
    let none = Answer::ConfirmingBlock(None);
    assert_eq!(
        error_of(&ask(method, &with("100"), &expected, none)),
        "tx not found or is unconfirmed"
    );
    assert_eq!(error_of(&at_once(method, "[]")), "bad tx_hash");
    assert_eq!(error_of(&at_once(method, &quoted(0xab))), "missing height");
}

#[test]
fn transaction_at_a_position() {
    let method = "blockchain.transaction.id_from_pos";
    let found = Answer::TransactionAt(Ok(([6; 32], vec![])));
    let step = ask(method, "[10, 2]", "TransactionAt(10, 2, false)", found);
    assert_eq!(result_of(&step), format!("\"{}\"", text_of(6)));
    let found = Answer::TransactionAt(Ok(([6; 32], vec![[7; 32]])));
    let step = ask(method, "[10, 2, true]", "TransactionAt(10, 2, true)", found);
    assert_eq!(
        result_of(&step),
        format!("{{\"merkle\":[\"{}\"],\"tx_hash\":\"{}\"}}", text_of(7), text_of(6))
    );
    let failure = Answer::TransactionAt(Err(RpcError::new("No tx in position")));
    let step = ask(method, "[10, 2]", "TransactionAt(10, 2, false)", failure);
    assert_eq!(error_of(&step), "No tx in position");
    assert_eq!(error_of(&at_once(method, "[10]")), "missing tx_pos");
    assert_eq!(error_of(&at_once(method, "[10, 2, 1]")), "not a bool merkle");
}

#[test]
fn server_speaks_of_itself() {
    assert_eq!(
        result_of(&at_once("server.version", "[\"client\", \"1.4\"]")),
        "[\"electrs-esplora 0.4.1\",\"1.4\"]"
    );
    assert_eq!(result_of(&at_once("server.banner", "[]")), "\"Welcome\"");
    assert_eq!(result_of(&at_once("server.donation_address", "[]")), "null");
    assert_eq!(result_of(&at_once("server.ping", "[]")), "null");
}

#[test]
fn peers_are_discovered() {
    let features = parse_json("{\"hosts\":{}}").unwrap();
    let step = ask("server.features", "[]", "OurFeatures", Answer::OurFeatures(features));
    assert_eq!(result_of(&step), "{\"hosts\":{}}");
    let peers = parse_json("[[\"1.2.3.4\",\"host\",[]]]").unwrap();
    let step = ask("server.peers.subscribe", "[]", "Peers", Answer::Peers(peers));
    assert_eq!(result_of(&step), "[[\"1.2.3.4\",\"host\",[]]]");

    let add = |outcome: PeerOutcome| {
        ask(
            "server.add_peer",
            "[{\"a\":1}]",
            "AddPeer(Object([(\"a\", Unsigned(1))]))",
            Answer::AddPeer(outcome),
        )
    };
    assert_eq!(result_of(&add(PeerOutcome::Added)), "true");
    let step = add(PeerOutcome::InvalidFeatures(vec!["missing hosts".to_string()]));
    assert_eq!(error_of(&step), "invalid features");
    assert!(step.effects.iter().any(|effect| matches!(
        effect,
        Effect::Failed(_, _, _, e) if e.causes == ["missing hosts"]
    )));
    assert_eq!(error_of(&add(PeerOutcome::Refused(RpcError::new("no")))), "no");
    assert_eq!(error_of(&at_once("server.add_peer", "[]")), "missing features param");
}

#[test]
fn discovery_can_be_off() {
    let with = |discovery: Discovery, method: &str| {
        let mut session = Session::new(Settings { discovery, ..settings() });
        session.handle_replies(request(method, "[{}]"))
    };
    let disabled = Discovery::Disabled;
    assert_eq!(result_of(&with(disabled, "server.peers.subscribe")), "[]");
    assert_eq!(error_of(&with(disabled, "server.features")), "discovery is disabled");
    assert_eq!(error_of(&with(disabled, "server.add_peer")), "discovery is disabled");
    assert_eq!(result_of(&with(Discovery::Absent, "server.peers.subscribe")), "[]");
    for method in ["server.features", "server.add_peer"] {
        let step = with(Discovery::Absent, method);
        match &step.next {
            Next::Close(Fault::UnknownMethod(name, params)) => {
                assert_eq!(name, method);
                assert_eq!(params.len(), 1);
            }
            _ => panic!("{:?}", step),
        }
    }
}

#[test]
fn other_chains_have_headers_and_assets_of_their_own() {
    let on_liquid = |method: &str, params: &str| {
        let mut session = Session::new(Settings { chain: Chain::Liquid, ..settings() });
        let step = session.handle_replies(request(method, params));
        (session, step)
    };
    let (mut session, _) = on_liquid("blockchain.block.header", "[8]");
    let header = BlockHeader::Encoded(vec![0x00, 0xa0, 0xff]);
    let step = session.resume(Answer::HeaderAt(Some(header)));
    assert_eq!(result_of(&step), "\"00a0ff\"");

    let (mut session, _) = on_liquid("blockchain.scripthash.listunspent", &quoted(0xab));
    let coins = Coins::Liquid {
        value: Json::Null,
        asset: Json::text("asset name"),
        nonce: Json::Unsigned(5),
    };
    let utxo = Utxo { txid: [2; 32], vout: 1, confirmed: None, coins };
    let step = session.resume(Answer::Unspent(Ok(vec![utxo])));
    assert_eq!(
        result_of(&step),
        format!(
            "[{{\"asset\":\"asset name\",\"height\":0,\"nonce\":5,\
             \"tx_hash\":\"{}\",\"tx_pos\":1,\"value\":null}}]",
            text_of(2)
        )
    );

    let (_, step) = on_liquid("blockchain.scripthash.get_balance", &quoted(0xab));
    assert!(matches!(step.next, Next::Close(Fault::UnknownMethod(_, _))));
}

#[test]
fn question_can_be_put_without_a_session() {
    let connection = electrs::connection::Connection::new(settings());
    let method = "blockchain.relayfee".to_string();
    match connection.handle_command(&method, &vec![]) {
        Some(electrs::pending::Progress::Ask(pending)) => {
            assert!(matches!(pending.lookup(), Lookup::RelayFee));
        }
        other => panic!("{:?}", other),
    }
    assert!(connection.handle_command(&"blockchain.nothing".to_string(), &vec![]).is_none());
}
