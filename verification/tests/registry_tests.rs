use myrpc4rs::error::Error;
use myrpc4rs::serialization::BincodeSerializer;
use myrpc4rs::server::{AddHandler, Handler, Processes};

/// A test handler in the shape of the original examples: decodes two u32
/// parameters, checks them, and returns their encoded sum.
struct SummingHandler {
    calls: usize,
    expect: (u32, u32),
}

impl Handler for SummingHandler {
    fn call(
        &mut self,
        serializer: &BincodeSerializer,
        params: &Vec<Vec<u8>>,
    ) -> Result<Vec<u8>, Error> {
        self.calls += 1;
        let a = serializer.deserialize_u32(&params[0])?;
        let b = serializer.deserialize_u32(&params[1])?;
        assert_eq!(self.expect.0, a);
        assert_eq!(self.expect.1, b);
        Ok(serializer.serialize_u32(a + b))
    }
}

#[test]
fn process_test() {
    let mut processes = Processes::new(BincodeSerializer::new());
    processes.insert_function(
        String::from("test"),
        SummingHandler { calls: 0, expect: (1, 2) },
    );
    let param1 = BincodeSerializer::new().serialize_u32(1);
    let param2 = BincodeSerializer::new().serialize_u32(2);
    let result = processes.execute_function("test", &vec![param1, param2]);
    assert_eq!(Ok(vec![3, 0, 0, 0]), result);
}

#[test]
fn dispatch_runs_the_handler_exactly_once() {
    let mut processes = Processes::new(BincodeSerializer::new());
    processes.insert_function(
        String::from("sum"),
        SummingHandler { calls: 0, expect: (8, 4) },
    );
    let s = BincodeSerializer::new();
    let params = vec![s.serialize_u32(8), s.serialize_u32(4)];
    let result = processes.execute_function("sum", &params);
    assert_eq!(result, Ok(s.serialize_u32(12)));
}

#[test]
fn dispatch_unregistered_name_is_function_not_found() {
    let mut processes: Processes<AddHandler> = Processes::new(BincodeSerializer::new());
    let result = processes.execute_function("ghost", &vec![]);
    assert_eq!(result, Err(Error::FunctionNotFound));
}

#[test]
fn add_handler_answers_the_wrapping_sum() {
    let s = BincodeSerializer::new();
    let mut processes = Processes::new(BincodeSerializer::new());
    processes.insert_function(String::from("add"), AddHandler);
    let params = vec![s.serialize_u32(8), s.serialize_u32(4)];
    assert_eq!(processes.execute_function("add", &params), Ok(s.serialize_u32(12)));
    let params = vec![s.serialize_u32(u32::MAX), s.serialize_u32(2)];
    assert_eq!(processes.execute_function("add", &params), Ok(s.serialize_u32(1)));
}

#[test]
fn add_handler_rejects_undecodable_params() {
    let s = BincodeSerializer::new();
    let mut processes = Processes::new(BincodeSerializer::new());
    processes.insert_function(String::from("add"), AddHandler);
    let bad_arity = vec![s.serialize_u32(8)];
    assert_eq!(
        processes.execute_function("add", &bad_arity),
        Err(Error::ParamDeserializeFail),
    );
    let bad_param = vec![s.serialize_u32(8), vec![1, 2]];
    assert_eq!(
        processes.execute_function("add", &bad_param),
        Err(Error::ParamDeserializeFail),
    );
}

#[test]
fn registering_again_overwrites_the_prior_handler() {
    let s = BincodeSerializer::new();
    let mut processes = Processes::new(BincodeSerializer::new());
    processes.insert_function(
        String::from("f"),
        SummingHandler { calls: 0, expect: (1, 1) },
    );
    processes.insert_function(
        String::from("f"),
        SummingHandler { calls: 0, expect: (2, 3) },
    );
    let params = vec![s.serialize_u32(2), s.serialize_u32(3)];
    assert_eq!(processes.execute_function("f", &params), Ok(s.serialize_u32(5)));
}

#[test]
fn dispatch_leaves_other_registrations_alone() {
    let s = BincodeSerializer::new();
    let mut processes = Processes::new(BincodeSerializer::new());
    processes.insert_function(String::from("a"), AddHandler);
    processes.insert_function(String::from("b"), AddHandler);
    let params = vec![s.serialize_u32(1), s.serialize_u32(1)];
    assert_eq!(processes.execute_function("a", &params), Ok(s.serialize_u32(2)));
    assert_eq!(processes.execute_function("b", &params), Ok(s.serialize_u32(2)));
    assert_eq!(processes.execute_function("c", &params), Err(Error::FunctionNotFound));
}
