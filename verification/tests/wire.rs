//! Checks of the smart protocol framing and of the gateway routes.

use gust::gateway::{get_method_router, post_method_router, put_method_router, GetRoute, PostRoute, PutRoute};
use gust::protocol::{
    build_receive_reply, build_smart_reply, build_upload_ack, parse_receive_command,
    parse_upload_request, pkt_line_bytes, pkt_readable_exec, read_pkt_line, receive_command_readable,
    side_band_packet, upload_request_readable, AckMode, HttpProtocol,
    RefCommand, RefResult, ServiceType, SideBind,
};

const ID_A: &str = "6414e45babf0bdd043ba40d31123053cfebef26c";
const ID_B: &str = "1b490ec04712d147bbe7c8b3a6d86ed4d3587a6a";

#[test]
fn pkt_line_framing_reads_back() {
    let line = pkt_line_bytes(b"hello\n");
    assert_eq!(b"000ahello\n".to_vec(), line);
    let mut stream = line.clone();
    stream.extend_from_slice(b"0000");
    let mut pos = 0;
    let (n, payload) = read_pkt_line(&stream, &mut pos);
    assert_eq!(10, n);
    assert_eq!(b"hello\n".to_vec(), payload);
    assert_eq!(10, pos);
    let (n, payload) = read_pkt_line(&stream, &mut pos);
    assert_eq!(0, n);
    assert!(payload.is_empty());
    assert_eq!(14, pos);
}

#[test]
fn smart_reply_advertises_refs() {
    let refs = vec!["abc\n".to_string()];
    let reply = build_smart_reply(&refs, "git-upload-pack");
    assert_eq!(b"001e# service=git-upload-pack\n00000008abc\n0000".to_vec(), reply);
}

#[test]
fn side_band_packet_frames_pack_data() {
    assert_eq!(b"0009\x01PACK".to_vec(), side_band_packet(b"PACK"));
    assert_eq!(1, SideBind::PackfileData.value());
    assert_eq!(2, SideBind::ProgressInfo.value());
    assert_eq!(3, SideBind::Error.value());
}

#[test]
fn services_and_ack_modes() {
    assert_eq!(ServiceType::UploadPack, ServiceType::new("git-upload-pack"));
    assert_eq!("git-receive-pack", ServiceType::ReceivePack.to_string());
    let mut p = HttpProtocol::new();
    assert_eq!(AckMode::MultiAckDetailed, p.mode);
    p.service_type("git-receive-pack");
    assert_eq!(Some(ServiceType::ReceivePack), p.service_type);
    assert_eq!("multi_ack", HttpProtocol::value_in_ack_mode(&AckMode::MultiAck));
    assert_eq!("", HttpProtocol::value_in_ack_mode(&AckMode::Neither));
}

#[test]
fn ref_command_status_lines() {
    let mut c = RefCommand::new(ID_A.to_string(), ID_B.to_string(), "refs/heads/main".to_string());
    assert_eq!("ok refs/heads/main", c.get_status());
    c.failed("non-fast-forward".to_string());
    assert_eq!("ng refs/heads/main non-fast-forward", c.get_status());
}

#[test]
fn upload_request_wants_and_haves() {
    let mut chunk = Vec::new();
    chunk.extend(pkt_line_bytes(format!("want {} multi_ack\n", ID_A).as_bytes()));
    chunk.extend(pkt_line_bytes(b"deepen 1\n"));
    chunk.extend(b"0000");
    chunk.extend(pkt_line_bytes(format!("have {}\n", ID_B).as_bytes()));
    chunk.extend(b"0000");
    let mut want = Vec::new();
    let mut have = Vec::new();
    parse_upload_request(&chunk, &mut want, &mut have);
    assert_eq!(vec![ID_A.to_string()], want);
    assert_eq!(vec![ID_B.to_string()], have);
}

#[test]
fn upload_ack_names_the_last_have() {
    let have = vec![ID_A.to_string(), ID_B.to_string()];
    let reply = build_upload_ack(&have);
    let text = String::from_utf8(reply).unwrap();
    assert!(text.starts_with(&format!("0038ACK {} common\n", ID_A)));
    assert!(text.contains(&format!("ACK {} ready\n", ID_B)));
    assert!(text.ends_with("0032ACK b2a1b00f1662679ac82272feaf8d08638e74f0eb \n"));
}

#[test]
fn receive_command_reads_the_first_line() {
    let mut chunk = pkt_line_bytes(format!("{} {} refs/heads/main\0report-status\n", ID_A, ID_B).as_bytes());
    let line_end = chunk.len();
    chunk.extend(b"0000PACK");
    let (r, pack_at) = parse_receive_command(&chunk).unwrap();
    assert_eq!(ID_A, r.from_id);
    assert_eq!(ID_B, r.to_id);
    assert_eq!("ok", r.result);
    assert_eq!(Some(line_end + 4), pack_at);
}

#[test]
fn receive_reply_reports_each_ref() {
    let mut r = RefResult {
        ref_name: "refs/heads/main".to_string(),
        from_id: ID_A.to_string(),
        to_id: ID_B.to_string(),
        result: "ng".to_string(),
    };
    r.get_result();
    let reply = build_receive_reply(&vec![r]);
    assert_eq!(b"000eunpack ok\n0016ok refs/heads/main0000".to_vec(), reply);
}

#[test]
fn get_routes() {
    match get_method_router("/repo/objects/abc123", None) {
        GetRoute::LfsDownload(oid) => assert_eq!("abc123", oid),
        _ => panic!("an object download was not routed"),
    }
    assert!(matches!(get_method_router("/repo/locks", None), GetRoute::LfsLocks));
    match get_method_router("/path/repo.git/info/refs", Some("git-upload-pack".to_string())) {
        GetRoute::InfoRefs(path, t) => {
            assert_eq!("/path/repo", path);
            assert_eq!(ServiceType::UploadPack, t);
        }
        _ => panic!("an info/refs request was not routed"),
    }
    match get_method_router("/path/repo.git/info/refs", Some("git-other".to_string())) {
        GetRoute::Forbidden(m) => assert_eq!("Operation not supported\n", m),
        _ => panic!("an unknown service was routed"),
    }
    match get_method_router("/repo/objects/ABC", None) {
        GetRoute::Forbidden(m) => assert_eq!("Operation not supported\n", m),
        _ => panic!("an upper-case object id was routed"),
    }
}

#[test]
fn post_and_put_routes() {
    assert!(matches!(post_method_router("/r/locks/verify"), PostRoute::LfsVerifyLock));
    assert!(matches!(post_method_router("/r/locks"), PostRoute::LfsCreateLock));
    match post_method_router("/r/locks/42/unlock") {
        PostRoute::LfsDeleteLock(id) => assert_eq!("42", id),
        _ => panic!("an unlock was not routed"),
    }
    assert!(matches!(post_method_router("/r/objects/batch"), PostRoute::LfsBatch));
    match post_method_router("/p/repo.git/git-receive-pack") {
        PostRoute::ReceivePack(p) => assert_eq!("/p/repo", p),
        _ => panic!("a receive-pack was not routed"),
    }
    match post_method_router("/p/other") {
        PostRoute::Forbidden(m) => assert_eq!("Operation not supported", m),
        _ => panic!("an unknown path was routed"),
    }
    match put_method_router("/r/objects/abc") {
        PutRoute::LfsUpload(oid) => assert_eq!("abc", oid),
        _ => panic!("an upload was not routed"),
    }
}

#[test]
fn readability_checks() {
    let mut chunk = pkt_line_bytes(format!("want {}\n", ID_A).as_bytes());
    chunk.extend(b"0000");
    assert!(upload_request_readable(&chunk));
    assert!(!upload_request_readable(b"00"));
    assert!(!upload_request_readable(b"0009want\n0000"));
    assert!(pkt_readable_exec(b"xx0000", 2));
    assert!(!pkt_readable_exec(b"zzzz", 0));
    assert!(!pkt_readable_exec(b"0010abc", 0));

    let mut push = pkt_line_bytes(format!("{} {} refs/heads/main\n", ID_A, ID_B).as_bytes());
    assert!(!receive_command_readable(&push));
    push.extend(b"0000");
    assert!(receive_command_readable(&push));
    assert!(!receive_command_readable(&pkt_line_bytes(b"one two")));
}
