use chord_ring::error::{NodeError, ParamError};

#[test]
fn a_param_error_shows_its_message() {
    let e = ParamError::new(String::from("port is not a number"));
    assert_eq!(e.to_string(), "Invalid parameter | port is not a number");
    assert_eq!(e.clone().to_string(), e.to_string());
}

#[test]
fn a_node_error_shows_its_message() {
    let e = NodeError::new(String::from("address in use"));
    assert_eq!(e.to_string(), "Error while listening | address in use");
    assert_eq!(NodeError::new(String::new()).to_string(), "Error while listening | ");
}
