use crypto::digest::Digest;
use crypto::sha2::Sha256;
use electrs::chain::{BitcoinHeader, BlockHeader, BlockId, HeaderEntry};
use electrs::json::{parse_json, render_json, Json};
use electrs::messages::{Message, ScriptHashSet};
use electrs::query::{Answer, HistoryItem, Lookup};
use electrs::session::{Effect, Fault, Next, Session, Step};
use electrs::settings::{Chain, Discovery, RpcLogging, Settings};
use std::sync::Arc;

fn set_up(rpc_logging: RpcLogging) -> Session {
    Session::new(Settings {
        chain: Chain::Bitcoin,
        txs_limit: 2,
        rpc_logging,
        salt: "pepper".to_string(),
        ip: "10.0.0.1".to_string(),
        port: 4321,
        version: "0.4.1".to_string(),
        banner: "Welcome".to_string(),
        discovery: Discovery::Absent,
    })
}

fn quiet() -> Session {
    set_up(RpcLogging { enabled: false, hide_params: false, anonymize_ip: false })
}

fn line(text: &str) -> Message {
    Message::Request(text.to_string())
}

fn lines_sent(step: &Step) -> Vec<String> {
    assert!(matches!(step.next, Next::Wait), "{:?}", step);
    let text = |effect: &Effect| match effect {
        Effect::Send(line) => Some(line.strip_suffix("\n").unwrap().to_string()),
        Effect::Update { .. } | Effect::Log(_) => panic!("{:?}", effect),
        _ => None,
    };
    step.effects.iter().filter_map(text).collect()
}

fn tells_nothing(step: &Step) -> bool {
    !step
        .effects
        .iter()
        .any(|effect| matches!(effect, Effect::Update { .. } | Effect::Log(_) | Effect::Send(_)))
}

// By how many the subscriptions are counted up.
fn count(step: &Step) -> i64 {
    let one = |effect: &Effect| match effect {
        Effect::Subscribed => 1,
        Effect::Unsubscribed => -1,
        Effect::Forgotten(count) => -(*count as i64),
        _ => 0,
    };
    step.effects.iter().map(one).sum()
}

fn asked_for(step: &Step) -> &Lookup {
    match &step.next {
        Next::Ask(lookup) => lookup,
        other => panic!("{:?}", other),
    }
}

fn follow_script(session: &mut Session, byte: u8, items: Vec<HistoryItem>) -> Vec<String> {
    let hash = format!("{:02x}", byte).repeat(32);
    let step = session.handle_replies(line(&format!(
        "{{\"id\":1,\"method\":\"blockchain.scripthash.subscribe\",\"params\":[\"{}\"]}}",
        hash
    )));
    assert!(matches!(asked_for(&step), Lookup::History(h, 3) if *h == [byte; 32]));
    lines_sent(&session.resume(Answer::History(items)))
}

fn unfollow_script(session: &mut Session, byte: u8) -> Vec<String> {
    let hash = format!("{:02x}", byte).repeat(32);
    lines_sent(&session.handle_replies(line(&format!(
        "{{\"id\":1,\"method\":\"blockchain.scripthash.unsubscribe\",\"params\":[\"{}\"]}}",
        hash
    ))))
}

fn mined(txid_byte: u8, height: usize) -> HistoryItem {
    HistoryItem { txid: [txid_byte; 32], block: Some(BlockId { height, hash: [0; 32] }) }
}

fn update(dirty: &[u8], tip_changed: bool) -> Message {
    let mut set = ScriptHashSet::new();
    for byte in dirty {
        set.insert([*byte; 32]);
    }
    Message::PeriodicUpdate { dirty: Arc::new(set), tip_changed }
}

fn sha256_hex(text: &str) -> String {
    let mut hasher = Sha256::new();
    hasher.input(text.as_bytes());
    hasher.result_str()
}

fn best(height: usize) -> HeaderEntry {
    HeaderEntry {
        height,
        hash: [height as u8; 32],
        header: BlockHeader::Bitcoin(BitcoinHeader {
            version: -1,
            prev_blockhash: [1; 32],
            merkle_root: [2; 32],
            time: 3,
            bits: 4,
            nonce: 5,
        }),
    }
}

#[test]
fn reply_has_the_id_of_its_request() {
    let mut session = quiet();
    let ping = |id: &str| format!("{{\"method\":\"server.ping\",\"id\":{}}}", id);
    for id in ["1", "-5", "\"abc\"", "null", "[1,{\"a\":2}]", "1.5"] {
        let reply = lines_sent(&session.handle_replies(line(&ping(id))));
        assert_eq!(reply, vec![format!("{{\"id\":{},\"jsonrpc\":\"2.0\",\"result\":null}}", id)]);
    }
}

#[test]
fn failed_request_leaves_the_connection_open() {
    let mut session = quiet();
    let step = session.handle_replies(line(
        "{\"id\":3,\"method\":\"blockchain.block.header\",\"params\":[]}",
    ));
    assert_eq!(
        lines_sent(&step),
        vec!["{\"error\":\"missing height\",\"id\":3,\"jsonrpc\":\"2.0\"}"]
    );
    let step = session.handle_replies(Message::Done);
    assert!(step.effects.is_empty());
    assert!(matches!(step.next, Next::Stop));
}

#[test]
fn batch_is_answered_in_order() {
    let mut session = quiet();
    let step = session.handle_replies(line(
        "[{\"id\":1,\"method\":\"server.ping\"},\
          {\"id\":2,\"method\":\"blockchain.relayfee\"},\
          {\"id\":3,\"method\":\"server.banner\",\"params\":[]}]",
    ));
    assert!(tells_nothing(&step));
    assert!(matches!(asked_for(&step), Lookup::RelayFee));
    let step = session.resume(Answer::RelayFee(Ok(parse_json("0.5").unwrap())));
    assert_eq!(
        lines_sent(&step),
        vec![
            "[{\"id\":1,\"jsonrpc\":\"2.0\",\"result\":null},\
              {\"id\":2,\"jsonrpc\":\"2.0\",\"result\":0.5},\
              {\"id\":3,\"jsonrpc\":\"2.0\",\"result\":\"Welcome\"}]"
        ]
    );
    assert_eq!(lines_sent(&session.handle_replies(line("[]"))), vec!["[]"]);
}

#[test]
fn batch_has_a_limit() {
    let ping = "{\"id\":1,\"method\":\"server.ping\"}";
    let batch = |n: usize| format!("[{}]", vec![ping; n].join(","));
    let mut session = quiet();
    let replies = lines_sent(&session.handle_replies(line(&batch(20))));
    assert_eq!(replies.len(), 1);
    match parse_json(&replies[0]) {
        Ok(Json::Array(replies)) => assert_eq!(replies.len(), 20),
        other => panic!("{:?}", other),
    }
    let step = session.handle_replies(line(&batch(21)));
    assert!(step.effects.is_empty());
    assert!(matches!(step.next, Next::Close(Fault::TooManyElements(21))));
}

#[test]
fn what_cannot_be_served_closes_the_connection() {
    let fault_of = |text: &str| {
        let step = quiet().handle_replies(line(text));
        assert!(tells_nothing(&step));
        match step.next {
            Next::Close(fault) => fault,
            other => panic!("{:?}", other),
        }
    };
    for bad in ["{", ""] {
        match fault_of(bad) {
            Fault::InvalidJson(cause) => assert!(cause.starts_with("EOF while parsing"), "{}", cause),
            other => panic!("{:?}", other),
        }
    }
    for bad in [
        "5",
        "{\"id\":1}",
        "{\"method\":\"server.ping\"}",
        "{\"id\":1,\"method\":5}",
        "{\"id\":1,\"method\":\"server.ping\",\"params\":{}}",
        "[[]]",
    ] {
        assert!(matches!(fault_of(bad), Fault::InvalidCommand(_)), "{}", bad);
    }
    match fault_of("{\"id\":1,\"method\":\"no.such\",\"params\":[true]}") {
        Fault::UnknownMethod(method, params) => {
            assert_eq!(method, "no.such");
            assert!(matches!(params[..], [Json::Bool(true)]));
        }
        other => panic!("{:?}", other),
    }
    // the replies so far are not sent
    let bad = "[{\"id\":1,\"method\":\"server.ping\"},{\"id\":1,\"method\":\"no.such\"}]";
    assert!(matches!(fault_of(bad), Fault::UnknownMethod(_, _)));
}

#[test]
fn status_is_the_hash_of_the_history() {
    let mut session = quiet();
    let replies = follow_script(&mut session, 0xab, vec![mined(1, 7), mined(2, 9)]);
    let text = format!("{}:7:{}:9:", "01".repeat(32), "02".repeat(32));
    assert_eq!(
        replies,
        vec![format!("{{\"id\":1,\"jsonrpc\":\"2.0\",\"result\":\"{}\"}}", sha256_hex(&text))]
    );
    assert_eq!(session.conn.status_hashes.len(), 1);

    // a script without history has none
    let replies = follow_script(&mut session, 0xcd, vec![]);
    assert_eq!(replies, vec!["{\"id\":1,\"jsonrpc\":\"2.0\",\"result\":null}"]);
    assert_eq!(session.conn.status_hashes.len(), 2);

    // the text of a hash shows its bytes in reverse
    let mut session = quiet();
    let mut txid = [0u8; 32];
    txid[0] = 0x11;
    txid[31] = 0xff;
    let item = HistoryItem { txid, ..mined(0, 3) };
    let replies = follow_script(&mut session, 0xab, vec![item]);
    let text = format!("ff{}11:3:", "00".repeat(30));
    assert!(replies[0].contains(&sha256_hex(&text)));
}

#[test]
fn status_depends_on_unconfirmed_parents() {
    let mut session = quiet();
    session.handle_replies(line(&format!(
        "{{\"id\":1,\"method\":\"blockchain.scripthash.subscribe\",\"params\":[\"{}\"]}}",
        "ab".repeat(32)
    )));
    let items = vec![
        HistoryItem { txid: [1; 32], block: None },
        HistoryItem { txid: [2; 32], block: None },
    ];
    let step = session.resume(Answer::History(items));
    assert!(matches!(asked_for(&step), Lookup::UnconfirmedParents(txids) if txids.len() == 2));
    let replies = lines_sent(&session.resume(Answer::UnconfirmedParents(vec![true, false])));
    let text = format!("{}:-1:{}:0:", "01".repeat(32), "02".repeat(32));
    assert!(replies[0].contains(&sha256_hex(&text)));
}

#[test]
fn script_with_too_much_history_is_not_followed() {
    let mut session = quiet();
    let items = vec![mined(1, 1), mined(2, 2), mined(3, 3)];
    let replies = follow_script(&mut session, 0xab, items);
    assert_eq!(
        replies,
        vec!["{\"error\":\"Too many history entries\",\"id\":1,\"jsonrpc\":\"2.0\"}"]
    );
    assert!(session.conn.status_hashes.is_empty());
}

#[test]
fn unsubscribe_tells_whether_it_was_followed() {
    let mut session = quiet();
    let yes = vec!["{\"id\":1,\"jsonrpc\":\"2.0\",\"result\":true}"];
    let no = vec!["{\"id\":1,\"jsonrpc\":\"2.0\",\"result\":false}"];
    assert_eq!(unfollow_script(&mut session, 1), no);
    follow_script(&mut session, 1, vec![]);
    follow_script(&mut session, 2, vec![mined(9, 9)]);
    follow_script(&mut session, 1, vec![mined(8, 8)]);
    // followed again, it is still one subscription
    assert_eq!(session.conn.status_hashes.len(), 2);
    assert_eq!(unfollow_script(&mut session, 1), yes);
    assert_eq!(unfollow_script(&mut session, 1), no);
    assert_eq!(session.conn.status_hashes.len(), 1);
    assert_eq!(session.conn.status_hashes[0].script_hash, [2; 32]);
    let step = session.handle_replies(line(
        "{\"id\":1,\"method\":\"blockchain.scripthash.unsubscribe\",\"params\":[]}",
    ));
    assert!(lines_sent(&step)[0].contains("bad script_hash"));
}

#[test]
fn subscriptions_are_counted_once() {
    let mut session = quiet();
    let request = |method: &str| {
        line(&format!(
            "{{\"id\":1,\"method\":\"blockchain.scripthash.{}\",\"params\":[\"{}\"]}}",
            method,
            "07".repeat(32)
        ))
    };
    follow_script(&mut session, 9, vec![mined(1, 1)]);
    let other = session.conn.status_hashes[0].status_hash;
    for expected in [1, 0] {
        assert_eq!(count(&session.handle_replies(request("subscribe"))), 0);
        assert_eq!(count(&session.resume(Answer::History(vec![mined(2, 2)]))), expected);
        assert_eq!(session.conn.status_hashes.len(), 2);
    }
    for (expected, reply) in [(-1, "true"), (0, "false")] {
        let step = session.handle_replies(request("unsubscribe"));
        assert_eq!(count(&step), expected);
        assert!(lines_sent(&step)[0].ends_with(&format!("\"result\":{}}}", reply)));
        assert_eq!(session.conn.status_hashes.len(), 1);
        assert_eq!(session.conn.status_hashes[0].script_hash, [9; 32]);
        assert_eq!(session.conn.status_hashes[0].status_hash, other);
    }
    // one that fails counts nothing
    session.handle_replies(request("subscribe"));
    let step = session.resume(Answer::History(vec![mined(1, 1), mined(2, 2), mined(3, 3)]));
    assert_eq!(count(&step), 0);
    // nor does an update
    session.handle_replies(update(&[], true));
    assert_eq!(count(&session.resume(Answer::History(vec![]))), 0);
}

#[test]
fn commands_are_timed_under_their_method() {
    let mut session = quiet();
    let step = session.handle_replies(line("{\"id\":1,\"method\":\"server.ping\"}"));
    assert!(matches!(
        &step.effects[..],
        [Effect::StartTimer(label), Effect::StopTimer, Effect::Send(_)] if label == "server.ping"
    ));
    let step = session.handle_replies(line("{\"id\":1,\"method\":\"no.such\"}"));
    assert!(matches!(&step.effects[..], [Effect::StartTimer(label)] if label == "no.such"));
    assert!(matches!(step.next, Next::Close(Fault::UnknownMethod(_, _))));
    // an update is timed too, until there are notes to send
    let mut session = quiet();
    follow_script(&mut session, 1, vec![]);
    let step = session.handle_replies(update(&[1], false));
    assert!(matches!(&step.effects[..], [Effect::StartTimer(label)] if label == "periodic_update"));
    let step = session.resume(Answer::History(vec![mined(1, 1)]));
    assert!(matches!(&step.effects[..], [Effect::StopTimer, Effect::Send(_)]));
}

#[test]
fn failed_request_gives_a_warning() {
    let mut session = quiet();
    let step = session.handle_replies(line(
        "{\"id\":\"x\",\"method\":\"blockchain.block.header\",\"params\":[\"a\"]}",
    ));
    match &step.effects[..] {
        [Effect::StartTimer(_), Effect::StopTimer, Effect::Failed(id, method, params, e), Effect::Send(_)] =>
        {
            assert_eq!(render_json(id), "\"x\"");
            assert_eq!(method, "blockchain.block.header");
            assert!(matches!(&params[..], [Json::Text(a)] if a == "a"));
            assert_eq!(e.message, "non-integer height");
            assert!(e.causes.is_empty());
        }
        other => panic!("{:?}", other),
    }
}

#[test]
fn warning_has_the_causes_that_the_reply_leaves_out() {
    let causes_of = |param: &str| {
        let step = quiet().handle_replies(line(&format!(
            "{{\"id\":1,\"method\":\"blockchain.scripthash.subscribe\",\"params\":[{}]}}",
            param
        )));
        assert_eq!(
            lines_sent(&step),
            vec!["{\"error\":\"bad script_hash\",\"id\":1,\"jsonrpc\":\"2.0\"}"]
        );
        match &step.effects[..] {
            [_, _, Effect::Failed(_, _, _, e), _] => {
                assert_eq!(e.message, "bad script_hash");
                e.causes.clone()
            }
            other => panic!("{:?}", other),
        }
    };
    assert_eq!(causes_of(""), ["missing hash"]);
    assert_eq!(causes_of("5"), ["non-string hash"]);
    assert_eq!(
        causes_of("\"abc\""),
        ["non-hex hash", "failed to parse hex", "invilad hex string length 3 (expected 64)"]
    );
    // bytes are counted and shown, not characters
    assert_eq!(
        causes_of(&format!("\"{}\"", "\u{e9}".repeat(31))),
        ["non-hex hash", "failed to parse hex", "invilad hex string length 62 (expected 64)"]
    );
    assert_eq!(
        causes_of(&format!("\"{}\u{e9}\"", "ab".repeat(31))),
        ["non-hex hash", "failed to parse hex digit", "invalid hex char 195"]
    );
    assert_eq!(
        causes_of(&format!("\"{}gx\"", "aF".repeat(31))),
        ["non-hex hash", "failed to parse hex digit", "invalid hex char 103"]
    );
}

// By how many clients are counted up.
fn clients(effects: &[Effect]) -> i64 {
    let one = |effect: &Effect| match effect {
        Effect::Connected => 1,
        Effect::Disconnected => -1,
        _ => 0,
    };
    effects.iter().map(one).sum()
}

#[test]
fn connection_counts_off_what_it_counted() {
    let mut session = quiet();
    let opening = session.open();
    assert!(matches!(opening[..], [Effect::Connected]));
    let mut total = 0;
    let mut step = |session: &mut Session, message: Message, answer: Option<Answer>| {
        let step = session.handle_replies(message);
        total += count(&step);
        if let Some(answer) = answer {
            total += count(&session.resume(answer));
        }
    };
    let request = |method: &str, byte: u8| {
        line(&format!(
            "{{\"id\":1,\"method\":\"blockchain.scripthash.{}\",\"params\":[\"{}\"]}}",
            method,
            format!("{:02x}", byte).repeat(32)
        ))
    };
    for byte in [1, 2, 1, 3] {
        step(&mut session, request("subscribe", byte), Some(Answer::History(vec![])));
    }
    step(&mut session, request("unsubscribe", 2), None);
    step(&mut session, request("unsubscribe", 2), None);
    // after a fault too
    step(&mut session, line("nonsense"), None);
    let closing = session.close();
    assert!(matches!(closing[..], [Effect::Disconnected, Effect::Forgotten(2)]));
    assert_eq!(clients(&opening) + clients(&closing), 0);
    assert_eq!(total - 2, 0);

    let open = RpcLogging { enabled: true, hide_params: false, anonymize_ip: false };
    let session = set_up(open);
    assert!(matches!(
        &session.open()[..],
        [Effect::Connected, Effect::Log(event)] if event.contains("connection_established")
    ));
    assert!(matches!(
        &session.close()[..],
        [Effect::Disconnected, Effect::Forgotten(0), Effect::Log(event)]
            if event.contains("connection_closed")
    ));
}

#[test]
fn limit_on_histories_can_be_any_but_the_greatest_number() {
    let mut session = quiet();
    session.conn.settings.txs_limit = usize::MAX - 1;
    let step = session.handle_replies(line(&format!(
        "{{\"id\":1,\"method\":\"blockchain.scripthash.subscribe\",\"params\":[\"{}\"]}}",
        "ab".repeat(32)
    )));
    assert!(matches!(asked_for(&step), Lookup::History(_, usize::MAX)));
    let replies = lines_sent(&session.resume(Answer::History(vec![mined(1, 1); 5])));
    assert!(replies[0].contains("\"result\":\""));
}

#[test]
fn update_for_a_block_brings_all_up_to_date() {
    let mut session = quiet();
    for byte in [1, 2, 3] {
        follow_script(&mut session, byte, vec![]);
    }
    // whatever is said to have changed
    for (dirty, told) in [(vec![], 2), (vec![1], 0), (vec![2, 9], 0)] {
        let mut set = ScriptHashSet::new();
        for byte in &dirty {
            set.insert([*byte; 32]);
        }
        let step = session.update_subscriptions(Arc::new(set), true);
        assert!(matches!(asked_for(&step), Lookup::History(hash, 3) if *hash == [1; 32]));
        let step = session.resume(Answer::History(vec![mined(1, 1)]));
        assert!(matches!(asked_for(&step), Lookup::History(hash, 3) if *hash == [2; 32]));
        let step = session.resume(Answer::History(vec![]));
        assert!(matches!(asked_for(&step), Lookup::History(hash, 3) if *hash == [3; 32]));
        let notes = lines_sent(&session.resume(Answer::History(vec![mined(3, 3)])));
        assert_eq!(notes.len(), told);
        let followed: Vec<[u8; 32]> =
            session.conn.status_hashes.iter().map(|entry| entry.script_hash).collect();
        assert_eq!(followed, vec![[1; 32], [2; 32], [3; 32]]);
        assert!(session.conn.status_hashes[0].status_hash.is_some());
        assert!(session.conn.status_hashes[1].status_hash.is_none());
    }
}

#[test]
fn update_without_changes_asks_nothing() {
    let mut session = quiet();
    follow_script(&mut session, 1, vec![]);
    assert!(lines_sent(&session.handle_replies(update(&[], false))).is_empty());
    // scripts that nobody follows
    assert!(lines_sent(&session.handle_replies(update(&[7, 8], false))).is_empty());
}

#[test]
fn update_checks_dirty_scripts_only() {
    let mut session = quiet();
    follow_script(&mut session, 1, vec![]);
    follow_script(&mut session, 2, vec![]);
    follow_script(&mut session, 3, vec![]);
    let step = session.handle_replies(update(&[2, 9], false));
    assert!(matches!(asked_for(&step), Lookup::History(hash, 3) if *hash == [2; 32]));
    let notes = lines_sent(&session.resume(Answer::History(vec![mined(5, 6)])));
    let status = sha256_hex(&format!("{}:6:", "05".repeat(32)));
    assert_eq!(
        notes,
        vec![format!(
            "{{\"jsonrpc\":\"2.0\",\"method\":\"blockchain.scripthash.subscribe\",\
             \"params\":[\"{}\",\"{}\"]}}",
            "02".repeat(32),
            status
        )]
    );
}

#[test]
fn update_after_a_block_checks_all_and_tells_changes_once() {
    let mut session = quiet();
    follow_script(&mut session, 1, vec![mined(1, 1)]);
    follow_script(&mut session, 2, vec![]);
    for told in [1, 0] {
        let step = session.handle_replies(update(&[], true));
        assert!(matches!(asked_for(&step), Lookup::History(hash, 3) if *hash == [1; 32]));
        let step = session.resume(Answer::History(vec![mined(1, 1)]));
        assert!(matches!(asked_for(&step), Lookup::History(hash, 3) if *hash == [2; 32]));
        let step = session.resume(Answer::History(vec![HistoryItem { txid: [4; 32], block: None }]));
        assert!(matches!(asked_for(&step), Lookup::UnconfirmedParents(_)));
        let notes = lines_sent(&session.resume(Answer::UnconfirmedParents(vec![false])));
        assert_eq!(notes.len(), told);
    }
    // a history that is gone is told too
    session.handle_replies(update(&[1], false));
    let notes = lines_sent(&session.resume(Answer::History(vec![])));
    assert!(notes[0].ends_with(",null]}"));
}

#[test]
fn update_fails_on_too_much_history() {
    let mut session = quiet();
    follow_script(&mut session, 1, vec![]);
    session.handle_replies(update(&[], true));
    let step = session.resume(Answer::History(vec![mined(1, 1), mined(2, 2), mined(3, 3)]));
    assert!(step.effects.is_empty());
    match step.next {
        Next::Close(Fault::UpdateFailed(e)) => assert_eq!(e.message, "Too many history entries"),
        other => panic!("{:?}", other),
    }
}

#[test]
fn best_header_is_told_when_it_changes() {
    let mut session = quiet();
    // nobody asked for it yet
    assert!(lines_sent(&session.handle_replies(update(&[], false))).is_empty());
    session.handle_replies(line("{\"id\":1,\"method\":\"blockchain.headers.subscribe\"}"));
    session.resume(Answer::BestHeader(best(7)));
    let step = session.handle_replies(update(&[], false));
    assert!(matches!(asked_for(&step), Lookup::BestHeader));
    assert!(lines_sent(&session.resume(Answer::BestHeader(best(7)))).is_empty());
    session.handle_replies(update(&[], false));
    let notes = lines_sent(&session.resume(Answer::BestHeader(best(8))));
    let hex = format!(
        "ffffffff{}{}030000000400000005000000",
        "01".repeat(32),
        "02".repeat(32)
    );
    assert_eq!(
        notes,
        vec![format!(
            "{{\"jsonrpc\":\"2.0\",\"method\":\"blockchain.headers.subscribe\",\
             \"params\":[{{\"height\":8,\"hex\":\"{}\"}}]}}",
            hex
        )]
    );
    session.handle_replies(update(&[], false));
    assert!(lines_sent(&session.resume(Answer::BestHeader(best(8)))).is_empty());
}

fn logged_event(logging: RpcLogging, text: &str) -> (Json, String) {
    let mut session = set_up(logging);
    let step = session.handle_replies(line(text));
    assert!(matches!(asked_for(&step), Lookup::Now));
    let step = session.resume(Answer::Now(1_000));
    assert!(matches!(asked_for(&step), Lookup::Now));
    assert!(matches!(
        &step.effects[..],
        [Effect::StartTimer(label), Effect::StopTimer] if label == "server.ping"
    ));
    let step = session.resume(Answer::Now(1_250));
    match (&step.effects[..], &step.next) {
        ([Effect::Log(event), Effect::Send(reply)], Next::Wait) => {
            (parse_json(event).unwrap(), reply.clone())
        }
        _ => panic!("{:?}", step),
    }
}

#[test]
fn requests_are_logged() {
    let text = "{\"id\":\"x\",\"method\":\"server.ping\",\"params\":[1]}";
    let open = RpcLogging { enabled: true, hide_params: false, anonymize_ip: false };
    let (event, reply) = logged_event(open, text);
    assert_eq!(
        render_json(&event),
        format!(
            "{{\"duration_micros\":250,\"event\":\"rpc_response\",\"id\":\"x\",\
             \"method\":\"server.ping\",\"params\":[1],\"request_size\":{},\
             \"response_size\":{},\"source\":{{\"ip\":\"10.0.0.1\",\"port\":4321}}}}",
            text.len(),
            reply.len() - 1
        )
    );

    let discreet = RpcLogging { enabled: true, hide_params: true, anonymize_ip: true };
    let (event, _) = logged_event(discreet, text);
    assert!(matches!(event.get("params"), Some(Json::Null)));
    match event.get("source").unwrap().get("ip") {
        Some(Json::Text(ip)) => assert_eq!(*ip, sha256_hex("pepper10.0.0.1")),
        other => panic!("{:?}", other),
    }
}

#[test]
fn time_that_runs_back_is_no_time() {
    let open = RpcLogging { enabled: true, hide_params: false, anonymize_ip: false };
    let mut session = set_up(open);
    session.handle_replies(line("{\"id\":1,\"method\":\"server.ping\"}"));
    session.resume(Answer::Now(500));
    let step = session.resume(Answer::Now(400));
    assert!(matches!(&step.effects[0], Effect::Log(event) if event.contains("\"duration_micros\":0")));
}

#[test]
fn connection_events_are_logged() {
    let open = RpcLogging { enabled: true, hide_params: false, anonymize_ip: false };
    assert_eq!(
        set_up(open).conn.connection_event("connection_established").unwrap(),
        "{\"event\":\"connection_established\",\"source\":{\"ip\":\"10.0.0.1\",\"port\":4321}}"
    );
    assert!(quiet().conn.connection_event("connection_closed").is_none());
}

#[test]
fn logged_batch_asks_the_time_for_each_request() {
    let open = RpcLogging { enabled: true, hide_params: false, anonymize_ip: false };
    let mut session = set_up(open);
    let step = session.handle_replies(line(
        "[{\"id\":1,\"method\":\"server.ping\"},{\"id\":2,\"method\":\"blockchain.relayfee\"}]",
    ));
    assert!(matches!(asked_for(&step), Lookup::Now));
    let step = session.resume(Answer::Now(1));
    assert!(matches!(asked_for(&step), Lookup::Now));
    let step = session.resume(Answer::Now(2));
    assert!(matches!(step.effects[..], [Effect::Log(_)]));
    assert!(matches!(asked_for(&step), Lookup::Now));
    let step = session.resume(Answer::Now(3));
    assert!(matches!(asked_for(&step), Lookup::RelayFee));
    let step = session.resume(Answer::RelayFee(Ok(Json::Null)));
    assert!(matches!(asked_for(&step), Lookup::Now));
    let step = session.resume(Answer::Now(9));
    assert!(matches!(step.effects[..], [Effect::Log(_), Effect::Send(_)]));
}
