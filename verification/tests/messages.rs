use propped_blockchain::messages::send_message;
use propped_blockchain::messages::Message;
use propped_blockchain::messages::Outbox;
use propped_blockchain::messages::Val;
use std::sync::mpsc;

#[test]
fn sent_message_reaches_the_sending_thread() {
    let (tx, rx) = mpsc::channel();
    let mut out = Outbox::new(tx);
    let msg = Message::Confirm { block: 4, b: Val::One };
    assert_eq!(send_message(msg, &mut out), Ok(()));
    assert_eq!(rx.recv().unwrap(), Message::Confirm { block: 4, b: Val::One });
}

#[test]
fn messages_arrive_in_the_order_they_are_sent() {
    let (tx, rx) = mpsc::channel();
    let mut out = Outbox::new(tx);
    assert_eq!(send_message(Message::Ping, &mut out), Ok(()));
    assert_eq!(send_message(Message::Coin { k: 7 }, &mut out), Ok(()));
    assert_eq!(rx.recv().unwrap(), Message::Ping);
    assert_eq!(rx.recv().unwrap(), Message::Coin { k: 7 });
}

#[test]
fn message_comes_back_when_nobody_listens() {
    let (tx, rx) = mpsc::channel::<Message>();
    drop(rx);
    let mut out = Outbox::new(tx);
    let msg = Message::Sleep { name: "node3".to_string() };
    assert_eq!(
        send_message(msg, &mut out),
        Err(Message::Sleep { name: "node3".to_string() })
    );
}
