use myrpc4rs::client::{next_request_id, ClientPackages, ProcessOutcome, SubmitOutcome};
use myrpc4rs::common::{Request, Response, SENTINEL_ID};
use myrpc4rs::serialization::BincodeSerializer;

fn request(id: u32, name: &str) -> Request {
    Request { id, name: String::from(name), params: vec![vec![1]] }
}

fn response_payload(id: u32, name: &str, result: Result<Vec<u8>, myrpc4rs::error::Error>) -> Vec<u8> {
    BincodeSerializer::new().serialize_response(&Response {
        id,
        name: String::from(name),
        result,
    })
}

#[test]
fn submission_is_framed_and_recorded() {
    let s = BincodeSerializer::new();
    let mut core: ClientPackages<u32> = ClientPackages::new();
    let req = request(1, "f");
    let encoded = s.serialize_request(&req);
    assert!(matches!(core.receive_submission(&s, req, 11), SubmitOutcome::Accepted));
    assert!(core.has_pending_id(1));
    assert_eq!(core.pending_count(), 1);
    let mut expected_wire = vec![0, 0, 0, encoded.len() as u8];
    expected_wire.extend_from_slice(&encoded);
    assert_eq!(core.pending_write().clone(), expected_wire);
}

#[test]
fn completion_receives_its_own_response() {
    let s = BincodeSerializer::new();
    let mut core: ClientPackages<&str> = ClientPackages::new();
    assert!(matches!(
        core.receive_submission(&s, request(1, "f"), "first"),
        SubmitOutcome::Accepted
    ));
    let payload = response_payload(1, "f", Ok(vec![9]));
    match core.process(&s, &payload) {
        ProcessOutcome::Completed(req, action, resp) => {
            assert_eq!(req.id, 1);
            assert_eq!(action, "first");
            assert_eq!(resp.id, 1);
            assert_eq!(resp.result, Ok(vec![9]));
        },
        _ => panic!("expected a completion"),
    }
    assert!(!core.has_pending_id(1));
    assert_eq!(core.pending_count(), 0);
}

#[test]
fn responses_match_by_id_regardless_of_arrival_order() {
    let s = BincodeSerializer::new();
    let mut core: ClientPackages<&str> = ClientPackages::new();
    let k = 5;
    assert!(matches!(
        core.receive_submission(&s, request(k, "f"), "call-k"),
        SubmitOutcome::Accepted
    ));
    assert!(matches!(
        core.receive_submission(&s, request(k + 1, "f"), "call-k1"),
        SubmitOutcome::Accepted
    ));
    // The server answers k+1 first, then k.
    match core.process(&s, &response_payload(k + 1, "f", Ok(vec![2]))) {
        ProcessOutcome::Completed(req, action, resp) => {
            assert_eq!(req.id, k + 1);
            assert_eq!(action, "call-k1");
            assert_eq!(resp.result, Ok(vec![2]));
        },
        _ => panic!("expected a completion"),
    }
    match core.process(&s, &response_payload(k, "f", Ok(vec![1]))) {
        ProcessOutcome::Completed(req, action, resp) => {
            assert_eq!(req.id, k);
            assert_eq!(action, "call-k");
            assert_eq!(resp.result, Ok(vec![1]));
        },
        _ => panic!("expected a completion"),
    }
    assert_eq!(core.pending_count(), 0);
}

#[test]
fn unmatched_response_is_dropped_silently() {
    let s = BincodeSerializer::new();
    let mut core: ClientPackages<u32> = ClientPackages::new();
    assert!(matches!(core.receive_submission(&s, request(1, "f"), 0), SubmitOutcome::Accepted));
    let payload = response_payload(99, "f", Ok(vec![]));
    assert!(matches!(core.process(&s, &payload), ProcessOutcome::Unmatched(_)));
    assert_eq!(core.pending_count(), 1);
}

#[test]
fn sentinel_response_reports_peer_decode_failure() {
    let s = BincodeSerializer::new();
    let mut core: ClientPackages<u32> = ClientPackages::new();
    let payload = response_payload(
        SENTINEL_ID,
        "",
        Err(myrpc4rs::error::Error::ParamDeserializeFail),
    );
    assert!(matches!(core.process(&s, &payload), ProcessOutcome::ServerSideFailure(_)));
}

#[test]
fn malformed_response_payload_is_reported() {
    let s = BincodeSerializer::new();
    let mut core: ClientPackages<u32> = ClientPackages::new();
    assert!(matches!(core.process(&s, &[1, 2, 3]), ProcessOutcome::MalformedResponse));
}

#[test]
fn shutdown_rejects_new_submissions_and_drains_pending() {
    let s = BincodeSerializer::new();
    let mut core: ClientPackages<&str> = ClientPackages::new();
    assert!(matches!(
        core.receive_submission(&s, request(1, "f"), "pending"),
        SubmitOutcome::Accepted
    ));
    let stop = Request { id: SENTINEL_ID, name: String::from("stop"), params: vec![] };
    assert!(matches!(core.receive_submission(&s, stop, "stop"), SubmitOutcome::ShutdownObserved));
    // No new submission is accepted after shutdown was observed.
    match core.receive_submission(&s, request(2, "g"), "late") {
        SubmitOutcome::Rejected(req, action) => {
            assert_eq!(req.id, 2);
            assert_eq!(action, "late");
        },
        _ => panic!("expected a rejection"),
    }
    // A repeated shutdown command is not a new observation.
    let stop_again = Request { id: SENTINEL_ID, name: String::from("stop"), params: vec![] };
    assert!(matches!(
        core.receive_submission(&s, stop_again, "stop-again"),
        SubmitOutcome::Rejected(_, _)
    ));
    // The loop must not exit while a call submitted before shutdown waits.
    assert!(!core.should_exit());
    let payload = response_payload(1, "f", Ok(vec![7]));
    assert!(matches!(core.process(&s, &payload), ProcessOutcome::Completed(_, _, _)));
    assert!(core.should_exit());
}

#[test]
fn sentinel_id_is_never_accepted_for_a_real_call() {
    let s = BincodeSerializer::new();
    let mut core: ClientPackages<u32> = ClientPackages::new();
    let bogus = Request { id: SENTINEL_ID, name: String::from("real"), params: vec![] };
    assert!(matches!(core.receive_submission(&s, bogus, 1), SubmitOutcome::Rejected(_, _)));
    assert_eq!(core.pending_count(), 0);
}

#[test]
fn request_ids_wrap_before_the_sentinel() {
    assert_eq!(next_request_id(0), 1);
    assert_eq!(next_request_id(1), 2);
    assert_eq!(next_request_id(u32::MAX - 3), u32::MAX - 2);
    assert_eq!(next_request_id(u32::MAX - 2), 0);
    for id in [0, 1, 1000, u32::MAX - 2] {
        assert_ne!(next_request_id(id), SENTINEL_ID);
    }
}
