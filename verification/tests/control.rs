use propped_blockchain::control::confirmation_step;
use propped_blockchain::control::select_protocol;
use propped_blockchain::control::time_left;
use propped_blockchain::control::Protocol;
use propped_blockchain::messages::Message;
use propped_blockchain::messages::Val;

#[test]
fn protocol_names() {
    assert_eq!(select_protocol("ASYNC"), Protocol::Async);
    assert_eq!(select_protocol("THUNDER"), Protocol::Thunderella);
    assert_eq!(select_protocol("PROP"), Protocol::Propped);
    assert_eq!(select_protocol("TARDI"), Protocol::Tardigrade);
    assert_eq!(select_protocol("CONTROL"), Protocol::Control);
    assert_eq!(select_protocol("tardi"), Protocol::Control);
    assert_eq!(select_protocol(""), Protocol::Control);
}

#[test]
fn confirmation_rounds_count_up() {
    let (m, next) = confirmation_step(1);
    assert_eq!(m, Message::Prepare { k: 1, b: Val::Zero });
    assert_eq!(next, 2);
    let (m, next) = confirmation_step(next);
    assert_eq!(m, Message::Prepare { k: 2, b: Val::Zero });
    assert_eq!(next, 3);
}

#[test]
fn waiting_until_a_time() {
    assert_eq!(time_left(0, 150), Some(150));
    assert_eq!(time_left(100, 150), Some(50));
    assert_eq!(time_left(150, 150), None);
    assert_eq!(time_left(u128::MAX, 0), None);
}
