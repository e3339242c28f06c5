use service_registry::controller::{Controller, Service};
use service_registry::repository::{Repository, RepositoryError};

#[test]
fn get_domains_connected_to_service() {
    let mut ctrl = Controller::new(Repository::default());
    let mut service1 = Service::new("s1");
    service1.add_domain("dom1");
    service1.add_domain("dom2");
    ctrl.add_service(&service1)
        .expect("failed adding service 1");

    let mut service2 = Service::new("s2");
    service2.add_domain("dom3");
    service2.add_domain("dom4");
    ctrl.add_service(&service2)
        .expect("failed adding service 2");

    let mut service3 = Service::new("s3");
    service3.add_domain("dom5");
    ctrl.add_service(&service3)
        .expect("failed adding service 3");

    ctrl.link_services(&service1, &service2);

    assert_eq!(
        ctrl.get_connected_domains(&service1),
        vec!["dom1", "dom2", "dom3", "dom4"]
    )
}

#[test]
fn connected_domains_keep_repeats_and_link_order() {
    let mut ctrl = Controller::new(Repository::new());
    let mut hub = Service::new("hub");
    hub.add_domain("shared");
    let mut left = Service::new("left");
    left.add_domain("shared");
    left.add_domain("l");
    let mut right = Service::new("right");
    right.add_domain("r");
    ctrl.add_service(&hub).unwrap();
    ctrl.add_service(&left).unwrap();
    ctrl.add_service(&right).unwrap();
    ctrl.link_services(&right, &hub);
    ctrl.link_services(&hub, &left);
    assert_eq!(
        ctrl.get_connected_domains(&hub),
        vec!["shared", "r", "shared", "l"]
    );
    assert_eq!(ctrl.get_connected_domains(&right), vec!["r", "shared"]);
}

#[test]
fn controller_rejects_taken_name_before_adding_domains() {
    let mut ctrl = Controller::new(Repository::new());
    let mut first = Service::new("s");
    first.add_domain("a");
    ctrl.add_service(&first).unwrap();
    let mut again = Service::new("s");
    again.add_domain("b");
    assert_eq!(
        ctrl.add_service(&again),
        Err(RepositoryError::ServiceAlreadyExists("s".to_string()))
    );
    assert_eq!(ctrl.get_connected_domains(&first), vec!["a"]);
}

#[test]
fn caller_service_keeps_domain_order() {
    let mut s = Service::new("s");
    s.add_domain("b");
    s.add_domain("a");
    assert_eq!(s.get_domains(), &vec!["b".to_string(), "a".to_string()]);
}
