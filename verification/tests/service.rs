use kvstore::error::Error;
use kvstore::message::{decode, encode, Message, FRAME_SIZE};
use kvstore::service::{respond, respond_shared, serve, step, Action, Event, Phase};
use kvstore::table::Table;

fn exchange(table: &mut Table, request: Message) -> Message {
    let frame = encode(&request).unwrap();
    let sent = serve(table, &frame).unwrap();
    decode(&sent).unwrap()
}

#[test]
fn put_get_and_miss_on_a_node_without_persistence() {
    let mut table = Table::new();
    let put = Message::Put {
        key: "a".into(),
        value: "1".into(),
    };
    assert_eq!(exchange(&mut table, put), Message::DonePut);
    let get = Message::Get { key: "a".into() };
    assert_eq!(
        exchange(&mut table, get),
        Message::Found { value: "1".into() }
    );
    let miss = Message::Get { key: "b".into() };
    assert_eq!(exchange(&mut table, miss), Message::NotFound);
}

#[test]
fn put_survives_snapshot_and_recovery() {
    let mut table = Table::new();
    let put = Message::Put {
        key: "x".into(),
        value: "y".into(),
    };
    assert_eq!(exchange(&mut table, put), Message::DonePut);
    let on_disk = table.snapshot().unwrap();
    drop(table);

    let mut recovered = Table::restore(&on_disk).unwrap();
    let get = Message::Get { key: "x".into() };
    assert_eq!(
        exchange(&mut recovered, get),
        Message::Found { value: "y".into() }
    );
}

#[test]
fn respond_applies_requests() {
    let mut table = Table::new();
    assert_eq!(
        respond(&mut table, Message::Get { key: "k".into() }),
        Ok(Message::NotFound)
    );
    assert_eq!(
        respond(
            &mut table,
            Message::Put {
                key: "k".into(),
                value: "v1".into()
            }
        ),
        Ok(Message::DonePut)
    );
    assert_eq!(
        respond(
            &mut table,
            Message::Put {
                key: "k".into(),
                value: "v2".into()
            }
        ),
        Ok(Message::DonePut)
    );
    assert_eq!(
        respond(&mut table, Message::Get { key: "k".into() }),
        Ok(Message::Found { value: "v2".into() })
    );
}

#[test]
fn respond_refuses_what_is_no_request() {
    let mut table = Table::new();
    table.put("k".into(), "v".into());
    let refused = [
        Message::Heartbeat,
        Message::Busy,
        Message::Found { value: "k".into() },
        Message::NotFound,
        Message::DonePut,
    ];
    for message in refused {
        assert_eq!(respond(&mut table, message), Err(Error::Protocol));
    }
    assert_eq!(table.len(), 1);
    assert_eq!(table.get("k"), Some("v".to_string()));
}

#[test]
fn serve_refuses_a_frame_that_holds_no_message() {
    let mut table = Table::new();
    assert_eq!(serve(&mut table, &[0u8; FRAME_SIZE]), Err(Error::Decode));
    assert_eq!(serve(&mut table, &[0xffu8; FRAME_SIZE]), Err(Error::Decode));
    assert_eq!(table.len(), 0);
}

#[test]
fn serve_refuses_a_response_as_request() {
    let mut table = Table::new();
    let frame = encode(&Message::DonePut).unwrap();
    assert_eq!(serve(&mut table, &frame), Err(Error::Protocol));
    let frame = encode(&Message::Heartbeat).unwrap();
    assert_eq!(serve(&mut table, &frame), Err(Error::Protocol));
}

#[test]
fn value_that_fits_a_put_may_not_fit_a_found() {
    let mut table = Table::new();
    let put = Message::Put {
        key: String::new(),
        value: "v".repeat(39),
    };
    assert_eq!(exchange(&mut table, put), Message::DonePut);
    let frame = encode(&Message::Get { key: String::new() }).unwrap();
    assert_eq!(serve(&mut table, &frame), Err(Error::Encode));
    assert_eq!(table.get(""), Some("v".repeat(39)));
}

#[test]
fn respond_shared_answers_gets_only() {
    let mut table = Table::new();
    table.put("k".into(), "v".into());
    assert_eq!(
        respond_shared(&table, &Message::Get { key: "k".into() }),
        Some(Message::Found { value: "v".into() })
    );
    assert_eq!(
        respond_shared(&table, &Message::Get { key: "j".into() }),
        Some(Message::NotFound)
    );
    let put = Message::Put {
        key: "j".into(),
        value: "w".into(),
    };
    assert_eq!(respond_shared(&table, &put), None);
    assert_eq!(respond_shared(&table, &Message::Heartbeat), None);
    assert_eq!(respond_shared(&table, &Message::DonePut), None);
    assert_eq!(table.get("j"), None);
}

#[test]
fn connection_serves_a_put_and_closes() {
    let mut table = Table::new();
    let put = Message::Put {
        key: "a".into(),
        value: "1".into(),
    };
    let frame = encode(&put).unwrap();
    let (phase, action) = step(Phase::AwaitingRequest, Event::Received(frame));
    assert_eq!(phase, Phase::Processing);
    assert_eq!(
        action,
        Action::Apply {
            request: put.clone(),
            exclusive: true
        }
    );
    let response = respond(&mut table, put).unwrap();
    let (phase, action) = step(phase, Event::Applied(response));
    assert_eq!(phase, Phase::Responding);
    assert_eq!(action, Action::Send(encode(&Message::DonePut).unwrap()));
    assert_eq!(step(phase, Event::Sent), (Phase::Closed, Action::Close));
}

#[test]
fn connection_serves_a_get_under_a_shared_lock() {
    let mut table = Table::new();
    table.put("a".into(), "1".into());
    let get = Message::Get { key: "a".into() };
    let frame = encode(&get).unwrap();
    let (phase, action) = step(Phase::AwaitingRequest, Event::Received(frame));
    assert_eq!(phase, Phase::Processing);
    assert_eq!(
        action,
        Action::Apply {
            request: get.clone(),
            exclusive: false
        }
    );
    let response = respond_shared(&table, &get).unwrap();
    let (phase, action) = step(phase, Event::Applied(response));
    let found = Message::Found { value: "1".into() };
    assert_eq!(
        (phase, action),
        (Phase::Responding, Action::Send(encode(&found).unwrap()))
    );
}

#[test]
fn connection_closes_on_a_bad_frame() {
    let received = Event::Received([0u8; FRAME_SIZE]);
    assert_eq!(
        step(Phase::AwaitingRequest, received),
        (Phase::Closed, Action::Close)
    );
}

#[test]
fn connection_closes_on_a_message_that_is_no_request() {
    let refused = [
        Message::Heartbeat,
        Message::Busy,
        Message::Found { value: "v".into() },
        Message::NotFound,
        Message::DonePut,
    ];
    for message in refused {
        let received = Event::Received(encode(&message).unwrap());
        assert_eq!(
            step(Phase::AwaitingRequest, received),
            (Phase::Closed, Action::Close)
        );
    }
}

#[test]
fn connection_closes_on_a_response_that_does_not_fit() {
    let response = Message::Found {
        value: "v".repeat(39),
    };
    assert_eq!(
        step(Phase::Processing, Event::Applied(response)),
        (Phase::Closed, Action::Close)
    );
}

#[test]
fn connection_closes_on_failure_and_timeout_in_every_phase() {
    let phases = [
        Phase::AwaitingRequest,
        Phase::Processing,
        Phase::Responding,
        Phase::Closed,
    ];
    for phase in phases {
        for event in [Event::Failed, Event::TimedOut] {
            assert_eq!(step(phase, event), (Phase::Closed, Action::Close));
        }
    }
}

#[test]
fn connection_takes_no_second_request() {
    let frame = encode(&Message::Put {
        key: "a".into(),
        value: "1".into(),
    })
    .unwrap();
    for phase in [Phase::Processing, Phase::Responding, Phase::Closed] {
        assert_eq!(
            step(phase, Event::Received(frame)),
            (Phase::Closed, Action::Close)
        );
    }
}

#[test]
fn connection_closes_on_an_event_out_of_turn() {
    assert_eq!(
        step(Phase::AwaitingRequest, Event::Sent),
        (Phase::Closed, Action::Close)
    );
    assert_eq!(
        step(Phase::AwaitingRequest, Event::Applied(Message::DonePut)),
        (Phase::Closed, Action::Close)
    );
    assert_eq!(
        step(Phase::Responding, Event::Applied(Message::DonePut)),
        (Phase::Closed, Action::Close)
    );
    assert_eq!(
        step(Phase::Processing, Event::Sent),
        (Phase::Closed, Action::Close)
    );
    assert_eq!(
        step(Phase::Closed, Event::Sent),
        (Phase::Closed, Action::Close)
    );
}
