use dist_rust_buted::svc_dsc::serdict::{SerDictError, SerDictImpl, ServiceMap};

fn registry() -> SerDictImpl {
    SerDictImpl::new(ServiceMap::new())
}

fn s(text: &str) -> String {
    text.to_string()
}

#[test]
fn a_registered_service_is_looked_up() {
    let mut dict = registry();
    let addr = dict.register_service(s("math"), s("add"), s("[::1]"), 50052, 0);
    assert_eq!(addr, Ok((s("[::1]"), 50052)));
    let info = dict.get_service(s("math"), s("add")).unwrap();
    assert_eq!((info.group, info.name, info.ip, info.port), (s("math"), s("add"), s("[::1]"), 50052));
}

#[test]
fn registering_again_replaces_the_address() {
    let mut dict = registry();
    dict.register_service(s("math"), s("add"), s("[::1]"), 50052, 0).unwrap();
    dict.register_service(s("math"), s("add"), s("10.0.0.1"), 6000, 5).unwrap();
    let info = dict.get_service(s("math"), s("add")).unwrap();
    assert_eq!((info.ip, info.port), (s("10.0.0.1"), 6000));
    assert_eq!(dict.service_registry.len(), 1);
}

#[test]
fn a_deregistered_service_is_not_found() {
    let mut dict = registry();
    dict.register_service(s("math"), s("add"), s("[::1]"), 50052, 0).unwrap();
    dict.deregister_service(s("math"), s("add"));
    let err = dict.get_service(s("math"), s("add")).unwrap_err();
    assert_eq!(err, SerDictError::NotRegistered { group: s("math"), name: s("add") });
    assert_eq!(err.message(), "Service math:add is not registered.");
    assert_eq!(dict.service_registry.len(), 0);
}

#[test]
fn deregistering_an_unknown_service_changes_nothing() {
    let mut dict = registry();
    dict.register_service(s("math"), s("add"), s("[::1]"), 50052, 0).unwrap();
    dict.deregister_service(s("math"), s("sub"));
    assert_eq!(dict.service_registry.len(), 1);
}

#[test]
fn a_lookup_needs_group_and_name() {
    let dict = registry();
    let err = dict.get_service(s(""), s("add")).unwrap_err();
    assert_eq!(err, SerDictError::EmptyGroupOrName);
    assert_eq!(err.message(), "group and name parameter cannot be empty");
    assert_eq!(dict.get_service(s("math"), s("")).unwrap_err(), SerDictError::EmptyGroupOrName);
}

#[test]
fn listing_reports_every_service_once() {
    let mut dict = registry();
    dict.register_service(s("math"), s("add"), s("h1"), 1, 0).unwrap();
    dict.register_service(s("math"), s("mul"), s("h2"), 2, 0).unwrap();
    dict.register_service(s("starter"), s("greeter"), s("h3"), 3, 0).unwrap();
    dict.register_service(s("math"), s("add"), s("h4"), 4, 0).unwrap();
    let mut listed: Vec<(String, String, String, u32)> = dict
        .list_service()
        .into_iter()
        .map(|i| (i.group, i.name, i.ip, i.port))
        .collect();
    listed.sort();
    assert_eq!(
        listed,
        vec![
            (s("math"), s("add"), s("h4"), 4),
            (s("math"), s("mul"), s("h2"), 2),
            (s("starter"), s("greeter"), s("h3"), 3),
        ]
    );
}

#[test]
fn listing_by_group_reports_that_group_only() {
    let mut dict = registry();
    dict.register_service(s("math"), s("add"), s("h1"), 1, 0).unwrap();
    dict.register_service(s("starter"), s("greeter"), s("h3"), 3, 0).unwrap();
    dict.register_service(s("math"), s("div"), s("h2"), 2, 0).unwrap();
    let mut names: Vec<String> = dict
        .list_service_by_group_name(s("math"))
        .unwrap()
        .into_iter()
        .map(|i| i.name)
        .collect();
    names.sort();
    assert_eq!(names, vec![s("add"), s("div")]);
    assert!(dict.list_service_by_group_name(s("nothing")).unwrap().is_empty());
    let err = dict.list_service_by_group_name(s("")).unwrap_err();
    assert_eq!(err, SerDictError::EmptyGroup);
    assert_eq!(err.message(), "group parameter cannot be empty");
}

#[test]
fn a_prune_removes_exactly_the_services_silent_for_the_interval() {
    let mut dict = registry();
    dict.register_service(s("math"), s("add"), s("h1"), 1, 1000).unwrap();
    dict.register_service(s("math"), s("mul"), s("h2"), 2, 4000).unwrap();
    dict.register_service(s("math"), s("div"), s("h3"), 3, 2000).unwrap();
    let mut drained = dict.service_registry.prune(5000, 3000);
    drained.sort();
    assert_eq!(drained, vec![(s("math"), s("add")), (s("math"), s("div"))]);
    assert_eq!(dict.service_registry.len(), 1);
    assert!(dict.get_service(s("math"), s("mul")).is_ok());
    assert!(dict.get_service(s("math"), s("div")).is_err());
}

#[test]
fn a_fresh_registration_survives_a_prune() {
    let mut dict = registry();
    dict.register_service(s("math"), s("add"), s("h1"), 1, 7000).unwrap();
    assert!(dict.service_registry.prune(7000, 1).is_empty());
    assert_eq!(dict.service_registry.len(), 1);
}

#[test]
fn a_record_from_the_future_is_not_expired() {
    let mut dict = registry();
    dict.register_service(s("math"), s("add"), s("h1"), 1, 9000).unwrap();
    assert!(dict.service_registry.prune(100, 50).is_empty());
}
