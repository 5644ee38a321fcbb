#[test]
fn start_server() {}

#[test]
fn command_test() {}
