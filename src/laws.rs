use vstd::prelude::*;

use crate::controller::owned_by;
use crate::repository::{domains_of, neighbors_of, owners_of, Domain, Repository, Service};

verus! {

/// Domains come back in exactly the order they were added to a service,
/// repeats included: adding `added` to `service` after `associations` extends
/// its domains by `added`, whatever the earlier associations were.
pub proof fn lemma_domains_in_insertion_order(
    associations: Seq<(Seq<char>, Seq<char>)>,
    service: Seq<char>,
    added: Seq<Seq<char>>,
)
    ensures
        domains_of(associations + owned_by(service, added), service) == domains_of(
            associations,
            service,
        ) + added,
    decreases added.len(),
{
    if added.len() == 0 {
        assert(associations + owned_by(service, added) =~= associations);
        assert(domains_of(associations, service) + added =~= domains_of(associations, service));
    } else {
        let all = associations + owned_by(service, added);
        assert(all.drop_last() =~= associations + owned_by(service, added.drop_last()));
        assert(all.last() == (service, added.last()));
        lemma_domains_in_insertion_order(associations, service, added.drop_last());
        assert(domains_of(associations, service) + added =~= (domains_of(associations, service)
            + added.drop_last()).push(added.last()));
    }
}

/// A service is among the owners of `domain` exactly when some association
/// gives it `domain`; a domain never associated has no owners.
pub proof fn lemma_owners_exact(associations: Seq<(Seq<char>, Seq<char>)>, domain: Seq<char>)
    ensures
        forall|name: Seq<char>|
            #![trigger owners_of(associations, domain).contains(name)]
            owners_of(associations, domain).contains(name) <==> exists|i: int|
                0 <= i < associations.len() && #[trigger] associations[i] == (name, domain),
        (forall|i: int| 0 <= i < associations.len() ==> #[trigger] associations[i].1 != domain)
            ==> owners_of(associations, domain) == Seq::<Seq<char>>::empty(),
    decreases associations.len(),
{
    if associations.len() > 0 {
        let rest = associations.drop_last();
        lemma_owners_exact(rest, domain);
        assert forall|name: Seq<char>|
            owners_of(associations, domain).contains(name) <==> exists|i: int|
                0 <= i < associations.len() && #[trigger] associations[i] == (name, domain) by {
            if owners_of(associations, domain).contains(name) {
                if owners_of(rest, domain).contains(name) {
                    let i = choose|i: int| 0 <= i < rest.len() && #[trigger] rest[i] == (name, domain);
                    assert(associations[i] == (name, domain));
                } else {
                    assert(associations[associations.len() - 1] == (name, domain));
                }
            }
            if exists|i: int| 0 <= i < associations.len() && #[trigger] associations[i] == (name, domain) {
                let i = choose|i: int|
                    0 <= i < associations.len() && #[trigger] associations[i] == (name, domain);
                if i < rest.len() {
                    assert(rest[i] == (name, domain));
                    assert(owners_of(rest, domain).contains(name));
                    let k = choose|k: int| 0 <= k < owners_of(rest, domain).len() && owners_of(rest, domain)[k] == name;
                    assert(owners_of(associations, domain)[k] == name);
                } else {
                    assert(owners_of(associations, domain).last() == name);
                }
            }
        }
        if forall|i: int| 0 <= i < associations.len() ==> #[trigger] associations[i].1 != domain {
            assert(forall|i: int| 0 <= i < rest.len() ==> #[trigger] rest[i].1 == associations[i].1);
            assert(associations[associations.len() - 1].1 != domain);
        }
    }
}

/// Links are found from either end: when a link between `a` and `b` was
/// recorded, `b` is among the neighbors of `a` and `a` among those of `b`.
pub proof fn lemma_links_symmetric(links: Seq<(Seq<char>, Seq<char>)>, a: Seq<char>, b: Seq<char>)
    requires
        links.contains((a, b)),
    ensures
        neighbors_of(links, a).contains(b),
        neighbors_of(links, b).contains(a),
    decreases links.len(),
{
    let rest = links.drop_last();
    if links.last() == (a, b) {
        assert(neighbors_of(links, a).last() == b);
        assert(neighbors_of(links, b).last() == a);
    } else {
        let i = choose|i: int| 0 <= i < links.len() && links[i] == (a, b);
        assert(rest[i] == (a, b));
        lemma_links_symmetric(rest, a, b);
        let j = choose|j: int| 0 <= j < neighbors_of(rest, a).len() && neighbors_of(rest, a)[j] == b;
        assert(neighbors_of(links, a)[j] == b);
        let k = choose|k: int| 0 <= k < neighbors_of(rest, b).len() && neighbors_of(rest, b)[k] == a;
        assert(neighbors_of(links, b)[k] == a);
    }
}

/// Reads are repeatable: with no write between them, two calls of a query on
/// the same argument give equal results.
pub proof fn lemma_reads_repeatable(
    repo: Repository,
    service: Seq<char>,
    domain: Seq<char>,
    first_domains: Seq<Domain>,
    second_domains: Seq<Domain>,
    first_links: Seq<Service>,
    second_links: Seq<Service>,
    first_owners: Seq<Service>,
    second_owners: Seq<Service>,
    first_has: bool,
    second_has: bool,
)
    requires
        first_domains.map_values(|d: Domain| d@) == domains_of(repo.associations(), service),
        second_domains.map_values(|d: Domain| d@) == domains_of(repo.associations(), service),
        first_links.map_values(|s: Service| s@) == neighbors_of(repo.link_pairs(), service),
        second_links.map_values(|s: Service| s@) == neighbors_of(repo.link_pairs(), service),
        first_owners.map_values(|s: Service| s@) == owners_of(repo.associations(), domain),
        second_owners.map_values(|s: Service| s@) == owners_of(repo.associations(), domain),
        first_has == repo.has(service),
        second_has == repo.has(service),
    ensures
        first_domains.map_values(|d: Domain| d@) == second_domains.map_values(|d: Domain| d@),
        first_links.map_values(|s: Service| s@) == second_links.map_values(|s: Service| s@),
        first_owners.map_values(|s: Service| s@) == second_owners.map_values(|s: Service| s@),
        first_has == second_has,
{
}

} // verus!
