use vstd::prelude::*;

use crate::repository::{
    domains_of, neighbors_of, Domain, Repository, RepositoryError, Service as RepoService,
};

verus! {

/// The domains of each of `services` in turn, concatenated.
pub open spec fn domains_of_each(associations: Seq<(Seq<char>, Seq<char>)>, services: Seq<Seq<char>>) -> Seq<
    Seq<char>,
>
    decreases services.len(),
{
    if services.len() == 0 {
        Seq::empty()
    } else {
        domains_of_each(associations, services.drop_last()) + domains_of(
            associations,
            services.last(),
        )
    }
}

/// The domains of `service` itself, then those of each service linked to it, in
/// link order, repeats kept.
pub open spec fn connected_domains(
    associations: Seq<(Seq<char>, Seq<char>)>,
    links: Seq<(Seq<char>, Seq<char>)>,
    service: Seq<char>,
) -> Seq<Seq<char>> {
    domains_of(associations, service) + domains_of_each(associations, neighbors_of(links, service))
}

/// The associations that give each of `domains` to `service`, in order.
pub open spec fn owned_by(service: Seq<char>, domains: Seq<Seq<char>>) -> Seq<(Seq<char>, Seq<char>)> {
    domains.map_values(|d: Seq<char>| (service, d))
}

/// A service as a caller describes it: a name and the names of its domains.
pub struct Service {
    name: String,
    domains: Vec<String>,
}

impl Service {
    /// The service's name.
    pub closed spec fn spec_name(&self) -> Seq<char> {
        self.name@
    }

    /// The names of the service's domains, in the order they were added.
    pub closed spec fn spec_domains(&self) -> Seq<Seq<char>> {
        self.domains@.map_values(|d: String| d@)
    }

    pub fn new(name: &str) -> (r: Service)
        ensures
            r.spec_name() == name@,
            r.spec_domains() == Seq::<Seq<char>>::empty(),
    {
        let r = Service { name: name.to_owned(), domains: Vec::new() };
        assert(r.spec_domains() =~= Seq::<Seq<char>>::empty());
        r
    }

    pub fn add_domain(&mut self, domain: &str)
        ensures
            final(self).spec_name() == old(self).spec_name(),
            final(self).spec_domains() == old(self).spec_domains().push(domain@),
    {
        self.domains.push(domain.to_owned());
        assert(self.spec_domains() =~= old(self).spec_domains().push(domain@));
    }

    pub fn get_domains(&self) -> (r: &Vec<String>)
        ensures
            r@.map_values(|d: String| d@) == self.spec_domains(),
    {
        &self.domains
    }
}

impl From<&String> for Domain {
    fn from(s: &String) -> (r: Domain) {
        Domain(s.clone())
    }
}

impl vstd::std_specs::convert::FromSpecImpl<&String> for Domain {
    open spec fn obeys_from_spec() -> bool {
        true
    }

    open spec fn from_spec(s: &String) -> Domain {
        Domain(*s)
    }
}

impl From<&Service> for RepoService {
    fn from(s: &Service) -> (r: RepoService) {
        RepoService::new(s.name.clone())
    }
}

impl vstd::std_specs::convert::FromSpecImpl<&Service> for RepoService {
    open spec fn obeys_from_spec() -> bool {
        true
    }

    closed spec fn from_spec(s: &Service) -> RepoService {
        RepoService::from_name(s.name)
    }
}

/// Appends the keys of `domains` to `out`, in order.
fn push_keys(out: &mut Vec<String>, domains: &Vec<Domain>)
    ensures
        final(out)@.map_values(|s: String| s@) == old(out)@.map_values(|s: String| s@)
            + domains@.map_values(|d: Domain| d@),
{
    let ghost start = out@.map_values(|s: String| s@);
    let mut i: usize = 0;
    while i < domains.len()
        invariant
            i <= domains@.len(),
            out@.map_values(|s: String| s@) == start + domains@.map_values(|d: Domain| d@).subrange(
                0,
                i as int,
            ),
        decreases domains@.len() - i,
    {
        let ghost prev = out@;
        out.push(domains[i].key().to_owned());
        assert(out@.map_values(|s: String| s@) =~= prev.map_values(|s: String| s@).push(
            domains@[i as int]@,
        ));
        assert(domains@.map_values(|d: Domain| d@).subrange(0, i as int + 1)
            =~= domains@.map_values(|d: Domain| d@).subrange(0, i as int).push(domains@[i as int]@));
        i += 1;
    }
    assert(domains@.map_values(|d: Domain| d@).subrange(0, i as int) =~= domains@.map_values(
        |d: Domain| d@,
    ));
}

/// Registers caller-described services with a repository and answers the
/// connected-domains query.
pub struct Controller {
    repository: Repository,
}

impl Controller {
    /// The repository the controller writes to and reads from.
    pub closed spec fn repo(&self) -> Repository {
        self.repository
    }

    pub fn new(repository: Repository) -> (r: Controller)
        requires
            repository.wf(),
        ensures
            r.repo() == repository,
            r.repo().wf(),
    {
        Controller { repository }
    }

    /// Registers the service, then associates each of its domains with it in
    /// order. A taken name fails before anything is written.
    pub fn add_service(&mut self, service: &Service) -> (r: Result<(), RepositoryError>)
        requires
            old(self).repo().wf(),
        ensures
            final(self).repo().wf(),
            r is Ok <==> !old(self).repo().has(service.spec_name()),
            r is Ok ==> final(self).repo().names() == old(self).repo().names().push(
                service.spec_name(),
            ),
            r is Ok ==> final(self).repo().associations() == old(self).repo().associations()
                + owned_by(service.spec_name(), service.spec_domains()),
            r is Ok ==> final(self).repo().domain_keys() == old(self).repo().domain_keys().union(
                service.spec_domains().to_set(),
            ),
            r matches Err(RepositoryError::ServiceAlreadyExists(n)) ==> n@ == service.spec_name()
                && *final(self) == *old(self),
            final(self).repo().link_pairs() == old(self).repo().link_pairs(),
    {
        let entry = RepoService::from(service);
        proof {
            RepoService::lemma_from_name_view(service.name);
        }
        match self.repository.add_service(entry) {
            Ok(()) => {},
            Err(e) => {
                return Err(e);
            },
        }
        let ghost assoc_before = self.repository.associations();
        let ghost keys_before = self.repository.domain_keys();
        let ghost name = service.spec_name();
        let ghost all = service.spec_domains();
        let mut i: usize = 0;
        while i < service.domains.len()
            invariant
                i <= service.domains@.len(),
                all == service.spec_domains(),
                name == service.spec_name(),
                self.repository.wf(),
                self.repository.names() == old(self).repo().names().push(name),
                self.repository.link_pairs() == old(self).repo().link_pairs(),
                self.repository.associations() == assoc_before + owned_by(
                    name,
                    all.subrange(0, i as int),
                ),
                self.repository.domain_keys() == keys_before.union(
                    all.subrange(0, i as int).to_set(),
                ),
            decreases service.domains@.len() - i,
        {
            let domain = Domain::from(&service.domains[i]);
            self.repository.add_domain(service.name.as_str(), domain);
            proof {
                let prefix = all.subrange(0, i as int);
                assert(all.subrange(0, i as int + 1) =~= prefix.push(all[i as int]));
                assert(owned_by(name, prefix.push(all[i as int])) =~= owned_by(name, prefix).push(
                    (name, all[i as int]),
                ));
                assert(assoc_before + owned_by(name, prefix).push((name, all[i as int])) =~= (
                assoc_before + owned_by(name, prefix)).push((name, all[i as int])));
                prefix.lemma_push_to_set_commute(all[i as int]);
                assert(keys_before.union(prefix.to_set().insert(all[i as int])) =~= keys_before.union(
                    prefix.to_set(),
                ).insert(all[i as int]));
            }
            i += 1;
        }
        assert(all.subrange(0, i as int) =~= all);
        Ok(())
    }

    /// Records a link between the two services.
    pub fn link_services(&mut self, from: &Service, to: &Service)
        requires
            old(self).repo().wf(),
        ensures
            final(self).repo().wf(),
            final(self).repo().names() == old(self).repo().names(),
            final(self).repo().domain_keys() == old(self).repo().domain_keys(),
            final(self).repo().associations() == old(self).repo().associations(),
            final(self).repo().link_pairs() == old(self).repo().link_pairs().push(
                (from.spec_name(), to.spec_name()),
            ),
    {
        self.repository.add_link(from.name.as_str(), to.name.as_str());
    }

    /// The keys of the service's own domains, then those of each linked service
    /// in link order, repeats kept. Every linked service must be registered.
    pub fn get_connected_domains(&self, service: &Service) -> (r: Vec<String>)
        requires
            forall|j: int|
                0 <= j < neighbors_of(self.repo().link_pairs(), service.spec_name()).len()
                    ==> self.repo().has(
                    #[trigger] neighbors_of(self.repo().link_pairs(), service.spec_name())[j],
                ),
        ensures
            r@.map_values(|s: String| s@) == connected_domains(
                self.repo().associations(),
                self.repo().link_pairs(),
                service.spec_name(),
            ),
    {
        let ghost assoc = self.repository.associations();
        let mut r: Vec<String> = Vec::new();
        let own = self.repository.get_service_domains(service.name.as_str());
        push_keys(&mut r, &own);
        assert(r@.map_values(|s: String| s@) =~= domains_of(assoc, service.spec_name()));
        let name = service.name.as_str();
        assert forall|j: int|
            0 <= j < neighbors_of(self.repository.link_pairs(), name@).len() implies self.repository.has(
                #[trigger] neighbors_of(self.repository.link_pairs(), name@)[j],
            ) by {
            assert(self.repo().has(neighbors_of(self.repo().link_pairs(), service.spec_name())[j]));
        }
        let linked = self.repository.get_links(name);
        let ghost names = linked@.map_values(|s: RepoService| s@);
        let mut i: usize = 0;
        while i < linked.len()
            invariant
                i <= linked@.len(),
                assoc == self.repository.associations(),
                names == linked@.map_values(|s: RepoService| s@),
                r@.map_values(|s: String| s@) == domains_of(assoc, service.spec_name())
                    + domains_of_each(assoc, names.subrange(0, i as int)),
            decreases linked@.len() - i,
        {
            let theirs = self.repository.get_service_domains(linked[i].name());
            push_keys(&mut r, &theirs);
            assert(names.subrange(0, i as int + 1).drop_last() =~= names.subrange(0, i as int));
            i += 1;
        }
        assert(names.subrange(0, i as int) =~= names);
        r
    }
}

} // verus!
