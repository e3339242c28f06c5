use service_registry::repository::{Domain, Repository, RepositoryError, Service};

#[test]
fn add_services() {
    let mut repo = Repository::default();
    let service = Service::new("service-1".to_string());
    let name = service.name().to_owned();
    let has_service = repo.has_service(service.name());
    assert!(!has_service);
    repo.add_service(service).unwrap();
    let has_service = repo.has_service(&name);
    assert!(has_service);
}

#[test]
fn add_services_err_if_already_exists() {
    let mut repo = Repository::default();

    let service = Service::new("service-1".to_string());
    repo.add_service(service).unwrap();

    let service = Service::new("service-1".to_string());
    assert!(repo.add_service(service).is_err());
}

#[test]
fn add_and_get_domains() {
    let mut repo = Repository::default();

    let service_1 = Service::new("service-1".to_string());
    let service_2 = Service::new("service-2".to_string());
    let name_1 = service_1.name().to_owned();
    let name_2 = service_2.name().to_owned();

    repo.add_service(service_1).unwrap();
    repo.add_service(service_2).unwrap();

    let domain_a = Domain("a".to_string());
    let domain_b = Domain("b".to_string());
    let domain_c = Domain("c".to_string());

    repo.add_domain(&name_1, domain_a.clone());
    repo.add_domain(&name_1, domain_b.clone());

    repo.add_domain(&name_2, domain_b.clone());
    repo.add_domain(&name_2, domain_c);

    assert_eq!(
        repo.get_service_domains(&name_1),
        vec![domain_a.clone(), domain_b.clone()]
    );
}

#[test]
fn get_service_with_domains() {
    let mut repo = Repository::default();
    let service_1 = Service::new("service-1".to_string());
    let service_2 = Service::new("service-2".to_string());
    let name_1 = service_1.name().to_owned();
    let name_2 = service_2.name().to_owned();

    repo.add_service(service_1.clone()).unwrap();
    repo.add_service(service_2.clone()).unwrap();

    let domain_a = Domain("a".to_string());
    let domain_b = Domain("b".to_string());
    let domain_c = Domain("c".to_string());
    repo.add_domain(&name_1, domain_a.clone());
    repo.add_domain(&name_1, domain_b.clone());
    repo.add_domain(&name_2, domain_b.clone());
    repo.add_domain(&name_2, domain_c.clone());

    assert_eq!(
        repo.get_services_with_domain(&domain_b),
        vec![service_1.clone(), service_2.clone()]
    );
    assert_eq!(repo.get_services_with_domain(&domain_a), vec![service_1.clone()]);
    assert_eq!(repo.get_services_with_domain(&domain_c), vec![service_2.clone()]);
}

#[test]
fn add_link_services() {
    let mut repo = Repository::default();
    let service_1 = Service::new("service-1".to_string());
    let service_2 = Service::new("service-2".to_string());
    let service_3 = Service::new("service-3".to_string());

    let name_1 = service_1.name().to_owned();
    let name_2 = service_2.name().to_owned();
    let name_3 = service_3.name().to_owned();

    let copy_service_1 = service_1.clone();
    let copy_service_2 = service_2.clone();
    let copy_service_3 = service_3.clone();

    repo.add_service(service_1).unwrap();
    repo.add_service(service_2).unwrap();
    repo.add_service(service_3).unwrap();

    repo.add_link(&name_1, &name_3);
    repo.add_link(&name_2, &name_3);

    assert_eq!(repo.get_links(&name_1), vec![copy_service_3.clone()]);
    assert_eq!(
        repo.get_links(&name_3),
        vec![copy_service_1.clone(), copy_service_2.clone()]
    );
}

#[test]
fn duplicate_registration_reports_name_and_keeps_services() {
    let mut repo = Repository::new();
    repo.add_service(Service::new("alpha".to_string())).unwrap();
    let err = repo.add_service(Service::new("alpha".to_string())).unwrap_err();
    assert_eq!(err, RepositoryError::ServiceAlreadyExists("alpha".to_string()));
    assert!(repo.has_service("alpha"));
    assert!(!repo.has_service("beta"));
    repo.add_service(Service::new("beta".to_string())).unwrap();
    assert!(repo.has_service("beta"));
}

#[test]
fn repeated_domains_are_kept_in_order() {
    let mut repo = Repository::new();
    repo.add_service(Service::new("s".to_string())).unwrap();
    repo.add_domain("s", Domain("x".to_string()));
    repo.add_domain("s", Domain("y".to_string()));
    repo.add_domain("s", Domain("x".to_string()));
    let keys: Vec<String> = repo
        .get_service_domains("s")
        .iter()
        .map(|d| d.key().to_string())
        .collect();
    assert_eq!(keys, vec!["x", "y", "x"]);
}

#[test]
fn service_without_domains_has_none() {
    let mut repo = Repository::new();
    repo.add_service(Service::new("lonely".to_string())).unwrap();
    assert!(repo.get_service_domains("lonely").is_empty());
}

#[test]
fn unassociated_domain_has_no_owners() {
    let mut repo = Repository::new();
    repo.add_service(Service::new("s".to_string())).unwrap();
    repo.add_domain("s", Domain("a".to_string()));
    assert!(repo
        .get_services_with_domain(&Domain("never".to_string()))
        .is_empty());
}

#[test]
fn links_are_found_from_both_ends() {
    let mut repo = Repository::new();
    repo.add_service(Service::new("a".to_string())).unwrap();
    repo.add_service(Service::new("b".to_string())).unwrap();
    repo.add_service(Service::new("c".to_string())).unwrap();
    repo.add_link("a", "b");
    assert_eq!(repo.get_links("a"), vec![Service::new("b".to_string())]);
    assert_eq!(repo.get_links("b"), vec![Service::new("a".to_string())]);
    assert!(repo.get_links("c").is_empty());
}

#[test]
fn reads_repeat_without_writes() {
    let mut repo = Repository::new();
    repo.add_service(Service::new("a".to_string())).unwrap();
    repo.add_service(Service::new("b".to_string())).unwrap();
    repo.add_domain("a", Domain("d".to_string()));
    repo.add_domain("b", Domain("d".to_string()));
    repo.add_link("a", "b");
    assert_eq!(repo.get_service_domains("a"), repo.get_service_domains("a"));
    assert_eq!(repo.get_links("a"), repo.get_links("a"));
    let d = Domain("d".to_string());
    assert_eq!(
        repo.get_services_with_domain(&d),
        repo.get_services_with_domain(&d)
    );
    assert_eq!(repo.has_service("a"), repo.has_service("a"));
}
