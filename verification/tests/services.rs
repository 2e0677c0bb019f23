use dist_rust_buted::dst_pfm::ServiceConfig;
use dist_rust_buted::hello::GreeterImpl;
use dist_rust_buted::svc_mat::ops::{div, mul, OpError};

#[test]
fn the_greeter_greets_by_name() {
    let greeter = GreeterImpl::default();
    assert_eq!(greeter.say_hello("Dolpheyn"), "Hello Dolpheyn!");
}

#[test]
fn division_rounds_toward_zero() {
    assert_eq!(div(10, 2), Ok(5));
    assert_eq!(div(7, 2), Ok(3));
    assert_eq!(div(-7, 2), Ok(-3));
    assert_eq!(div(7, -2), Ok(-3));
    assert_eq!(div(-7, -2), Ok(3));
    assert_eq!(div(0, 5), Ok(0));
}

#[test]
fn division_by_zero_is_refused() {
    assert_eq!(div(5, 0), Err(OpError::ZeroDenominator));
    assert_eq!(OpError::ZeroDenominator.message(), "denominator cannot be 0");
}

#[test]
fn multiplication() {
    assert_eq!(mul(5, 10), 50);
    assert_eq!(mul(-3, 7), -21);
}

fn config(should_register: bool) -> ServiceConfig {
    ServiceConfig {
        service_group: "math".to_string(),
        service_name: "calc".to_string(),
        host: "[::1]".to_string(),
        port: 50056,
        should_register,
    }
}

#[test]
fn a_registering_service_registers_its_address() {
    let info = config(true).registration().unwrap();
    assert_eq!(info.group, "math");
    assert_eq!(info.name, "calc");
    assert_eq!(info.ip, "[::1]");
    assert_eq!(info.port, 50056);
    assert_eq!(
        config(true).deregistration(),
        Some(("math".to_string(), "calc".to_string()))
    );
}

#[test]
fn a_service_that_does_not_register_does_not_deregister() {
    assert!(config(false).registration().is_none());
    assert!(config(false).deregistration().is_none());
}
