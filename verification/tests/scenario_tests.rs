use myrpc4rs::client::{ClientPackages, ProcessOutcome, SubmitOutcome};
use myrpc4rs::common::{Request, SENTINEL_ID};
use myrpc4rs::error::Error;
use myrpc4rs::net::{PollOutcome, ServerPackages, ServerStep};
use myrpc4rs::serialization::BincodeSerializer;
use myrpc4rs::server::{AddHandler, Processes};

/// Moves every queued outbound byte of the client to the server.
fn client_to_server<C>(client: &mut ClientPackages<C>, server: &mut ServerPackages) {
    let bytes = client.pending_write().clone();
    server.push_bytes(&bytes);
    client.take_written(bytes.len());
}

/// Moves every queued outbound byte of the server to the client.
fn server_to_client<C>(server: &mut ServerPackages, client: &mut ClientPackages<C>) {
    let bytes = server.pending_write().clone();
    client.push_bytes(&bytes);
    server.take_written(bytes.len());
}

#[test]
fn scenario_add_two_numbers() {
    let s = BincodeSerializer::new();
    let mut processes = Processes::new(BincodeSerializer::new());
    processes.insert_function(String::from("add"), AddHandler);
    let mut server = ServerPackages::new();
    let mut client: ClientPackages<&str> = ClientPackages::new();

    let request = Request {
        id: 0,
        name: String::from("add"),
        params: vec![s.serialize_u32(8), s.serialize_u32(4)],
    };
    assert!(matches!(
        client.receive_submission(&s, request, "add-call"),
        SubmitOutcome::Accepted
    ));
    client_to_server(&mut client, &mut server);
    assert!(matches!(
        server.poll_step(&mut processes, false),
        ServerStep::Answered(_)
    ));
    server_to_client(&mut server, &mut client);
    let payload = match client.poll_response(false) {
        PollOutcome::Frame(p) => p,
        _ => panic!("expected a framed response"),
    };
    match client.process(&s, &payload) {
        ProcessOutcome::Completed(req, action, resp) => {
            assert_eq!(req.name, "add");
            assert_eq!(action, "add-call");
            assert_eq!(resp.id, 0);
            assert_eq!(resp.name, "add");
            let sum = s.deserialize_u32(resp.result.as_ref().unwrap());
            assert_eq!(sum, Ok(12));
        },
        _ => panic!("expected a completion"),
    }
}

#[test]
fn scenario_unregistered_function() {
    let s = BincodeSerializer::new();
    let mut processes: Processes<AddHandler> = Processes::new(BincodeSerializer::new());
    let mut server = ServerPackages::new();
    let mut client: ClientPackages<()> = ClientPackages::new();

    let request = Request { id: 0, name: String::from("ghost"), params: vec![] };
    assert!(matches!(client.receive_submission(&s, request, ()), SubmitOutcome::Accepted));
    client_to_server(&mut client, &mut server);
    assert!(matches!(server.poll_step(&mut processes, false), ServerStep::Answered(_)));
    server_to_client(&mut server, &mut client);
    let payload = match client.poll_response(false) {
        PollOutcome::Frame(p) => p,
        _ => panic!("expected a framed response"),
    };
    match client.process(&s, &payload) {
        ProcessOutcome::Completed(_, _, resp) => {
            assert_eq!(resp.result, Err(Error::FunctionNotFound));
        },
        _ => panic!("expected a completion"),
    }
}

#[test]
fn scenario_out_of_order_responses() {
    let s = BincodeSerializer::new();
    let mut processes = Processes::new(BincodeSerializer::new());
    processes.insert_function(String::from("add"), AddHandler);
    let mut server = ServerPackages::new();
    let mut client: ClientPackages<u32> = ClientPackages::new();

    let k = 10;
    for (id, a, b) in [(k, 1u32, 2u32), (k + 1, 30, 40)] {
        let request = Request {
            id,
            name: String::from("add"),
            params: vec![s.serialize_u32(a), s.serialize_u32(b)],
        };
        assert!(matches!(
            client.receive_submission(&s, request, id),
            SubmitOutcome::Accepted
        ));
    }
    client_to_server(&mut client, &mut server);
    // The server answers both, in order; deliver the two response frames to
    // the client swapped, so id k+1 arrives first.
    assert!(matches!(server.poll_step(&mut processes, false), ServerStep::Answered(_)));
    let first = server.pending_write().clone();
    server.take_written(first.len());
    assert!(matches!(server.poll_step(&mut processes, false), ServerStep::Answered(_)));
    let second = server.pending_write().clone();
    server.take_written(second.len());
    client.push_bytes(&second);
    client.push_bytes(&first);

    let mut completions = Vec::new();
    loop {
        match client.poll_response(false) {
            PollOutcome::Frame(p) => match client.process(&s, &p) {
                ProcessOutcome::Completed(req, action, resp) => {
                    assert_eq!(req.id, resp.id);
                    assert_eq!(action, resp.id);
                    completions.push((resp.id, s.deserialize_u32(resp.result.as_ref().unwrap())));
                },
                _ => panic!("expected a completion"),
            },
            PollOutcome::NotReady => break,
            PollOutcome::Closed => unreachable!(),
        }
    }
    assert_eq!(completions, vec![(k + 1, Ok(70)), (k, Ok(3))]);
    assert_eq!(client.pending_count(), 0);
}

#[test]
fn scenario_malformed_request_is_answered_not_fatal() {
    let s = BincodeSerializer::new();
    let mut processes: Processes<AddHandler> = Processes::new(BincodeSerializer::new());
    let mut server = ServerPackages::new();

    // A well-formed frame whose payload is not a request encoding.
    server.push_bytes(&[0, 0, 0, 2, 0xde, 0xad]);
    match server.poll_step(&mut processes, false) {
        ServerStep::Answered(resp) => {
            assert_eq!(resp.id, SENTINEL_ID);
            assert_eq!(resp.name, "");
            assert_eq!(resp.result, Err(Error::ParamDeserializeFail));
        },
        _ => panic!("expected a synthetic error response"),
    }
    // The connection stays usable: a good request still gets served.
    let request = Request { id: 1, name: String::from("ghost"), params: vec![] };
    let encoded = s.serialize_request(&request);
    let mut frame = vec![0, 0, 0, encoded.len() as u8];
    frame.extend_from_slice(&encoded);
    server.push_bytes(&frame);
    match server.poll_step(&mut processes, false) {
        ServerStep::Answered(resp) => {
            assert_eq!(resp.id, 1);
            assert_eq!(resp.result, Err(Error::FunctionNotFound));
        },
        _ => panic!("expected a response"),
    }
    assert!(matches!(server.poll_step(&mut processes, false), ServerStep::NotReady));
    assert!(matches!(server.poll_step(&mut processes, true), ServerStep::Closed));
}
