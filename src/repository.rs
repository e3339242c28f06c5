use vstd::prelude::*;

verus! {

/// A registered service, identified by its name alone.
#[derive(Debug, PartialEq, Eq, Clone)]
pub struct Service {
    id: String,
}

impl View for Service {
    type V = Seq<char>;

    closed spec fn view(&self) -> Seq<char> {
        self.id@
    }
}

impl Service {
    pub fn new(name: String) -> (r: Service)
        ensures
            r@ == name@,
            r == Service::from_name(name),
    {
        Service { id: name }
    }

    /// The service called `name`, as a value.
    pub closed spec fn from_name(name: String) -> Service {
        Service { id: name }
    }

    /// The service made from a name is named by it.
    pub proof fn lemma_from_name_view(name: String)
        ensures
            Service::from_name(name)@ == name@,
    {
    }

    pub fn name(&self) -> (r: &str)
        ensures
            r@ == self@,
    {
        self.id.as_str()
    }
}

/// A domain, identified by its key alone.
#[derive(PartialEq, Eq, Hash, Debug, Clone)]
pub struct Domain(pub String);

impl View for Domain {
    type V = Seq<char>;

    open spec fn view(&self) -> Seq<char> {
        self.0@
    }
}

impl Domain {
    pub fn key(&self) -> (r: &str)
        ensures
            r@ == self@,
    {
        self.0.as_str()
    }
}


/// The domains that `associations` gives to `service`, in the order they were added.
pub open spec fn domains_of(associations: Seq<(Seq<char>, Seq<char>)>, service: Seq<char>) -> Seq<
    Seq<char>,
>
    decreases associations.len(),
{
    if associations.len() == 0 {
        Seq::empty()
    } else {
        let rest = domains_of(associations.drop_last(), service);
        if associations.last().0 == service {
            rest.push(associations.last().1)
        } else {
            rest
        }
    }
}

/// The services that `associations` gives `domain` to, in the order of association.
pub open spec fn owners_of(associations: Seq<(Seq<char>, Seq<char>)>, domain: Seq<char>) -> Seq<
    Seq<char>,
>
    decreases associations.len(),
{
    if associations.len() == 0 {
        Seq::empty()
    } else {
        let rest = owners_of(associations.drop_last(), domain);
        if associations.last().1 == domain {
            rest.push(associations.last().0)
        } else {
            rest
        }
    }
}

/// The services linked to `service`, one for each link that has it at either end,
/// in the order the links were added.
pub open spec fn neighbors_of(links: Seq<(Seq<char>, Seq<char>)>, service: Seq<char>) -> Seq<
    Seq<char>,
>
    decreases links.len(),
{
    if links.len() == 0 {
        Seq::empty()
    } else {
        let rest = neighbors_of(links.drop_last(), service);
        let (from, to) = links.last();
        if from == service {
            rest.push(to)
        } else if to == service {
            rest.push(from)
        } else {
            rest
        }
    }
}

/// The neighbors found in a prefix of the links come first among all neighbors.
proof fn lemma_neighbors_prefix(links: Seq<(Seq<char>, Seq<char>)>, service: Seq<char>, n: int)
    requires
        0 <= n <= links.len(),
    ensures
        neighbors_of(links.subrange(0, n), service).len() <= neighbors_of(links, service).len(),
        neighbors_of(links.subrange(0, n), service) =~= neighbors_of(links, service).subrange(
            0,
            neighbors_of(links.subrange(0, n), service).len() as int,
        ),
    decreases links.len(),
{
    if n < links.len() {
        assert(links.drop_last().subrange(0, n) =~= links.subrange(0, n));
        lemma_neighbors_prefix(links.drop_last(), service, n);
    } else {
        assert(links.subrange(0, n) =~= links);
    }
}

/// The owners found in a prefix of the associations come first among all owners.
proof fn lemma_owners_prefix(associations: Seq<(Seq<char>, Seq<char>)>, domain: Seq<char>, n: int)
    requires
        0 <= n <= associations.len(),
    ensures
        owners_of(associations.subrange(0, n), domain).len() <= owners_of(associations, domain).len(),
        owners_of(associations.subrange(0, n), domain) =~= owners_of(associations, domain).subrange(
            0,
            owners_of(associations.subrange(0, n), domain).len() as int,
        ),
    decreases associations.len(),
{
    if n < associations.len() {
        assert(associations.drop_last().subrange(0, n) =~= associations.subrange(0, n));
        lemma_owners_prefix(associations.drop_last(), domain, n);
    } else {
        assert(associations.subrange(0, n) =~= associations);
    }
}

/// The error of registering a service whose name is already taken.
#[derive(Debug, PartialEq, Eq, Clone)]
pub enum RepositoryError {
    ServiceAlreadyExists(String),
}

/// The store of services, domain keys, service-domain associations and links.
#[derive(Debug)]
pub struct Repository {
    services: Vec<Service>,
    domains: Vec<String>,
    service_domains: Vec<(String, Domain)>,
    links: Vec<(String, String)>,
}

impl Repository {
    /// The names of the registered services, in the order of registration.
    pub closed spec fn names(&self) -> Seq<Seq<char>> {
        self.services@.map_values(|s: Service| s@)
    }

    /// Whether a service of this name is registered.
    pub open spec fn has(&self, name: Seq<char>) -> bool {
        self.names().contains(name)
    }

    /// The keys of every domain that was ever associated with a service.
    pub closed spec fn domain_keys(&self) -> Set<Seq<char>> {
        self.domains@.map_values(|k: String| k@).to_set()
    }

    /// The (service, domain key) associations, in the order they were added.
    pub closed spec fn associations(&self) -> Seq<(Seq<char>, Seq<char>)> {
        self.service_domains@.map_values(|p: (String, Domain)| (p.0@, p.1@))
    }

    /// The links as (from, to) pairs of service names, in the order they were added.
    pub closed spec fn link_pairs(&self) -> Seq<(Seq<char>, Seq<char>)> {
        self.links@.map_values(|p: (String, String)| (p.0@, p.1@))
    }

    /// Service names are unique, and so are the stored domain keys.
    pub closed spec fn wf(&self) -> bool {
        &&& self.names().no_duplicates()
        &&& self.domains@.map_values(|k: String| k@).no_duplicates()
    }

    pub fn new() -> (r: Repository)
        ensures
            r.wf(),
            r.is_empty(),
    {
        let r = Repository {
            services: Vec::new(),
            domains: Vec::new(),
            service_domains: Vec::new(),
            links: Vec::new(),
        };
        proof {
            assert(r.names() =~= Seq::<Seq<char>>::empty());
            assert(r.domain_keys() =~= Set::<Seq<char>>::empty());
            assert(r.associations() =~= Seq::<(Seq<char>, Seq<char>)>::empty());
            assert(r.link_pairs() =~= Seq::<(Seq<char>, Seq<char>)>::empty());
        }
        r
    }

    /// Whether the repository holds no service, domain, association or link.
    pub open spec fn is_empty(&self) -> bool {
        &&& self.names() == Seq::<Seq<char>>::empty()
        &&& self.domain_keys() == Set::<Seq<char>>::empty()
        &&& self.associations() == Seq::<(Seq<char>, Seq<char>)>::empty()
        &&& self.link_pairs() == Seq::<(Seq<char>, Seq<char>)>::empty()
    }

    /// The position of the registered service called `name`, if any.
    fn position_of(&self, name: &String) -> (r: Option<usize>)
        ensures
            r is None <==> !self.has(name@),
            r matches Some(i) ==> i < self.services@.len() && self.services@[i as int]@ == name@,
    {
        let mut i: usize = 0;
        while i < self.services.len()
            invariant
                i <= self.services@.len(),
                forall|j: int| 0 <= j < i ==> self.services@[j]@ != name@,
            decreases self.services@.len() - i,
        {
            if self.services[i].id == *name {
                assert(self.names()[i as int] == name@);
                return Some(i);
            }
            i += 1;
        }
        proof {
            if self.has(name@) {
                let j = choose|j: int| 0 <= j < self.names().len() && self.names()[j] == name@;
                assert(self.services@[j]@ == name@);
            }
        }
        None
    }

    /// The position of the stored domain key equal to `key`, if any.
    fn position_of_domain(&self, key: &String) -> (r: Option<usize>)
        ensures
            r matches Some(i) ==> i < self.domains@.len() && self.domains@[i as int]@ == key@,
            r is None ==> forall|j: int| 0 <= j < self.domains@.len() ==> self.domains@[j]@ != key@,
    {
        let mut i: usize = 0;
        while i < self.domains.len()
            invariant
                i <= self.domains@.len(),
                forall|j: int| 0 <= j < i ==> self.domains@[j]@ != key@,
            decreases self.domains@.len() - i,
        {
            if self.domains[i] == *key {
                return Some(i);
            }
            i += 1;
        }
        None
    }

    /// A copy of the registered service called `name`.
    fn service_named(&self, name: &String) -> (r: Service)
        requires
            self.has(name@),
        ensures
            r@ == name@,
    {
        let i = self.position_of(name).unwrap();
        Service { id: self.services[i].id.clone() }
    }

    /// Registers `service`, unless a service of its name is already registered,
    /// in which case nothing changes.
    pub fn add_service(&mut self, service: Service) -> (r: Result<(), RepositoryError>)
        requires
            old(self).wf(),
        ensures
            final(self).wf(),
            r is Ok <==> !old(self).has(service@),
            r is Ok ==> final(self).names() == old(self).names().push(service@),
            r is Ok ==> final(self).has(service@),
            r matches Err(RepositoryError::ServiceAlreadyExists(n)) ==> n@ == service@
                && *final(self) == *old(self),
            final(self).domain_keys() == old(self).domain_keys(),
            final(self).associations() == old(self).associations(),
            final(self).link_pairs() == old(self).link_pairs(),
    {
        if self.position_of(&service.id).is_some() {
            return Err(RepositoryError::ServiceAlreadyExists(service.id));
        }
        let ghost before = self.names();
        self.services.push(service);
        proof {
            assert(self.names() =~= before.push(service@));
            assert(self.names().last() == service@);
            assert forall|a: int, b: int|
                0 <= a < b < self.names().len() implies self.names()[a] != self.names()[b] by {
                if b == before.len() {
                    assert(before[a] == self.names()[a]);
                }
            }
        }
        Ok(())
    }

    /// Records that `service` owns `domain`, and keeps the domain's key.
    pub fn add_domain(&mut self, service: &str, domain: Domain)
        requires
            old(self).wf(),
        ensures
            final(self).wf(),
            final(self).names() == old(self).names(),
            final(self).domain_keys() == old(self).domain_keys().insert(domain@),
            final(self).associations() == old(self).associations().push((service@, domain@)),
            final(self).link_pairs() == old(self).link_pairs(),
    {
        let ghost keys_before = self.domains@.map_values(|k: String| k@);
        let ghost assoc_before = self.associations();
        match self.position_of_domain(&domain.0) {
            Some(i) => {
                proof {
                    assert(keys_before[i as int] == domain@);
                    assert(self.domain_keys() =~= old(self).domain_keys().insert(domain@));
                }
            },
            None => {
                self.domains.push(domain.0.clone());
                proof {
                    let keys = self.domains@.map_values(|k: String| k@);
                    assert(keys =~= keys_before.push(domain@));
                    assert forall|a: int, b: int|
                        0 <= a < b < keys.len() implies keys[a] != keys[b] by {
                        if b == keys_before.len() {
                            assert(keys_before[a] == old(self).domains@[a]@);
                        }
                    }
                    keys_before.lemma_push_to_set_commute(domain@);
                }
            },
        }
        let key = service.to_owned();
        self.service_domains.push((key, domain));
        proof {
            assert(self.associations() =~= assoc_before.push((service@, domain@)));
        }
    }

    /// Records a link between `from` and `to`.
    pub fn add_link(&mut self, from: &str, to: &str)
        requires
            old(self).wf(),
        ensures
            final(self).wf(),
            final(self).names() == old(self).names(),
            final(self).domain_keys() == old(self).domain_keys(),
            final(self).associations() == old(self).associations(),
            final(self).link_pairs() == old(self).link_pairs().push((from@, to@)),
    {
        let ghost before = self.link_pairs();
        self.links.push((from.to_owned(), to.to_owned()));
        proof {
            assert(self.link_pairs() =~= before.push((from@, to@)));
        }
    }

    /// The domains owned by `service`, in the order they were added, repeats kept.
    pub fn get_service_domains(&self, service: &str) -> (r: Vec<Domain>)
        ensures
            r@.map_values(|d: Domain| d@) == domains_of(self.associations(), service@),
    {
        let key = service.to_owned();
        let mut r: Vec<Domain> = Vec::new();
        let mut i: usize = 0;
        while i < self.service_domains.len()
            invariant
                i <= self.service_domains@.len(),
                key@ == service@,
                r@.map_values(|d: Domain| d@) == domains_of(
                    self.associations().subrange(0, i as int),
                    service@,
                ),
            decreases self.service_domains@.len() - i,
        {
            let ghost prev = r@;
            let ghost assoc = self.associations();
            assert(assoc.subrange(0, i as int + 1).drop_last() =~= assoc.subrange(0, i as int));
            if self.service_domains[i].0 == key {
                let d = Domain(self.service_domains[i].1.0.clone());
                r.push(d);
                assert(r@.map_values(|d: Domain| d@) =~= prev.map_values(|d: Domain| d@).push(
                    d@,
                ));
            }
            i += 1;
        }
        assert(self.associations().subrange(0, i as int) =~= self.associations());
        r
    }

    /// The services linked to `service`, matched at either end of each link, in
    /// link order. Every one of them must be registered.
    pub fn get_links(&self, service: &str) -> (r: Vec<Service>)
        requires
            forall|j: int|
                0 <= j < neighbors_of(self.link_pairs(), service@).len() ==> self.has(
                    #[trigger] neighbors_of(self.link_pairs(), service@)[j],
                ),
        ensures
            r@.map_values(|s: Service| s@) == neighbors_of(self.link_pairs(), service@),
    {
        let key = service.to_owned();
        let mut r: Vec<Service> = Vec::new();
        let mut i: usize = 0;
        while i < self.links.len()
            invariant
                i <= self.links@.len(),
                key@ == service@,
                forall|j: int|
                    0 <= j < neighbors_of(self.link_pairs(), service@).len() ==> self.has(
                        #[trigger] neighbors_of(self.link_pairs(), service@)[j],
                    ),
                r@.map_values(|s: Service| s@) == neighbors_of(
                    self.link_pairs().subrange(0, i as int),
                    service@,
                ),
            decreases self.links@.len() - i,
        {
            let ghost prev = r@;
            let ghost links = self.link_pairs();
            assert(links.subrange(0, i as int + 1).drop_last() =~= links.subrange(0, i as int));
            proof {
                lemma_neighbors_prefix(links, service@, i as int + 1);
            }
            let from = &self.links[i].0;
            let to = &self.links[i].1;
            let other = if *from == key {
                Some(to)
            } else if *to == key {
                Some(from)
            } else {
                None
            };
            if let Some(name) = other {
                assert(neighbors_of(links.subrange(0, i as int + 1), service@).last() == name@);
                let found = self.service_named(name);
                r.push(found);
                assert(r@.map_values(|s: Service| s@) =~= prev.map_values(|s: Service| s@).push(
                    found@,
                ));
            }
            i += 1;
        }
        assert(self.link_pairs().subrange(0, i as int) =~= self.link_pairs());
        r
    }

    /// The services that own a domain whose key equals that of `domain`, in the
    /// order of association. Every one of them must be registered.
    pub fn get_services_with_domain(&self, domain: &Domain) -> (r: Vec<Service>)
        requires
            forall|j: int|
                0 <= j < owners_of(self.associations(), domain@).len() ==> self.has(
                    #[trigger] owners_of(self.associations(), domain@)[j],
                ),
        ensures
            r@.map_values(|s: Service| s@) == owners_of(self.associations(), domain@),
    {
        let mut r: Vec<Service> = Vec::new();
        let mut i: usize = 0;
        while i < self.service_domains.len()
            invariant
                i <= self.service_domains@.len(),
                forall|j: int|
                    0 <= j < owners_of(self.associations(), domain@).len() ==> self.has(
                        #[trigger] owners_of(self.associations(), domain@)[j],
                    ),
                r@.map_values(|s: Service| s@) == owners_of(
                    self.associations().subrange(0, i as int),
                    domain@,
                ),
            decreases self.service_domains@.len() - i,
        {
            let ghost prev = r@;
            let ghost assoc = self.associations();
            assert(assoc.subrange(0, i as int + 1).drop_last() =~= assoc.subrange(0, i as int));
            proof {
                lemma_owners_prefix(assoc, domain@, i as int + 1);
            }
            if self.service_domains[i].1.0 == domain.0 {
                let name = &self.service_domains[i].0;
                assert(owners_of(assoc.subrange(0, i as int + 1), domain@).last() == name@);
                let found = self.service_named(name);
                r.push(found);
                assert(r@.map_values(|s: Service| s@) =~= prev.map_values(|s: Service| s@).push(
                    found@,
                ));
            }
            i += 1;
        }
        assert(self.associations().subrange(0, i as int) =~= self.associations());
        r
    }

    pub fn has_service(&self, name: &str) -> (r: bool)
        ensures
            r == self.has(name@),
    {
        let key = name.to_owned();
        self.position_of(&key).is_some()
    }
}

impl Default for Repository {
    fn default() -> (r: Repository)
        ensures
            r.wf(),
            r.is_empty(),
    {
        Repository::new()
    }
}

} // verus!
