//! Docker compose on Periphery: the compose command, the service and
//! container names of a stack's compose file, and the projects that
//! `docker compose ls` reports.

use crate::text::{
    chars_less, chars_of, decimal, lemma_seq_lt_irreflexive, lemma_seq_lt_total,
    lemma_seq_lt_transitive, lemma_split_on_joins_back, join_with, push_decimal, seq_lt, split_chars, split_on, string_views,
};
use vstd::prelude::*;
use vstd::string::StringExecFns;

verus! {

/// The command that runs docker compose: the standalone `docker-compose`
/// binary for the legacy CLI, the `docker compose` plugin otherwise.
pub fn docker_compose(legacy_compose_cli: bool) -> (r: &'static str)
    ensures
        r@ == (if legacy_compose_cli {
            "docker-compose"@
        } else {
            "docker compose"@
        }),
{
    if legacy_compose_cli {
        "docker-compose"
    } else {
        "docker compose"
    }
}

/// The `deploy` section of a compose service, as far as it is read.
#[derive(Debug)]
pub struct ComposeServiceDeploy {
    pub replicas: Option<u8>,
}

/// A service of a compose file, as far as it is read.
#[derive(Debug)]
pub struct ComposeService {
    pub image: Option<String>,
    pub container_name: Option<String>,
    pub deploy: Option<ComposeServiceDeploy>,
}

/// A compose file, as far as it is read: its services, in file order.
#[derive(Debug)]
pub struct ComposeFile {
    pub name: Option<String>,
    pub services: Vec<(String, ComposeService)>,
}

/// The names that identify one container of a stack.
#[derive(Debug)]
pub struct StackServiceNames {
    pub service_name: String,
    pub container_name: String,
    pub image: String,
    pub image_digest: Option<String>,
}

/// The model of `StackServiceNames`.
pub struct ServiceNamesView {
    pub service_name: Seq<char>,
    pub container_name: Seq<char>,
    pub image: Seq<char>,
    pub image_digest: Option<Seq<char>>,
}

pub open spec fn optional_view(o: Option<String>) -> Option<Seq<char>> {
    match o {
        Some(s) => Some(s@),
        None => None,
    }
}

impl View for StackServiceNames {
    type V = ServiceNamesView;

    open spec fn view(&self) -> ServiceNamesView {
        ServiceNamesView {
            service_name: self.service_name@,
            container_name: self.container_name@,
            image: self.image@,
            image_digest: optional_view(self.image_digest),
        }
    }
}

pub open spec fn names_views(v: Seq<StackServiceNames>) -> Seq<ServiceNamesView> {
    v.map_values(|n: StackServiceNames| n@)
}

/// The replica count of a service, when it asks for more than one.
pub open spec fn replica_count(s: ComposeService) -> Option<nat> {
    match s.deploy {
        Some(d) => match d.replicas {
            Some(r) => if r > 1 {
                Some(r as nat)
            } else {
                None
            },
            None => None,
        },
        None => None,
    }
}

/// The image of a service, empty when it names none.
pub open spec fn image_of(s: ComposeService) -> Seq<char> {
    match s.image {
        Some(i) => i@,
        None => seq![],
    }
}

/// The names of the containers of service `name` of project `project`: one
/// per replica when it has more than one, numbered from 1, as
/// `{project}-{name}-{i}` and `{name}-{i}`; else one, whose container is
/// the service's `container_name`, or `{project}-{name}`.
pub open spec fn service_names(project: Seq<char>, name: Seq<char>, s: ComposeService) -> Seq<
    ServiceNamesView,
> {
    match replica_count(s) {
        Some(n) => Seq::new(
            n,
            |i: int|
                ServiceNamesView {
                    service_name: name + "-"@ + decimal((i + 1) as nat),
                    container_name: project + "-"@ + name + "-"@ + decimal((i + 1) as nat),
                    image: image_of(s),
                    image_digest: None,
                },
        ),
        None => seq![
            ServiceNamesView {
                service_name: name,
                container_name: match s.container_name {
                    Some(c) => c@,
                    None => project + "-"@ + name,
                },
                image: image_of(s),
                image_digest: None,
            },
        ],
    }
}

/// The names of the containers of all the services, in file order.
pub open spec fn all_service_names(project: Seq<char>, services: Seq<(String, ComposeService)>) -> Seq<
    ServiceNamesView,
>
    decreases services.len(),
{
    if services.len() == 0 {
        seq![]
    } else {
        all_service_names(project, services.drop_last()) + service_names(
            project,
            services.last().0@,
            services.last().1,
        )
    }
}

/// A replica count that the compose file may give: 255 replicas would
/// overflow the `u8` loop bound `1 + replicas`.
pub open spec fn replicas_in_range(services: Seq<(String, ComposeService)>) -> bool {
    forall|i: int|
        0 <= i < services.len() ==> match (#[trigger] services[i]).1.deploy {
            Some(d) => d.replicas != Some(255u8),
            None => true,
        }
}

fn copy_string(s: &String) -> (r: String)
    ensures
        r@ == s@,
{
    s.clone()
}

/// Appends to `services` the names of the containers of every service of
/// the compose file of project `project_name`, in file order.
pub fn parse_compose_services(
    compose: &ComposeFile,
    project_name: &str,
    services: &mut Vec<StackServiceNames>,
)
    requires
        replicas_in_range(compose.services@),
    ensures
        names_views(final(services)@) == names_views(old(services)@) + all_service_names(
            project_name@,
            compose.services@,
        ),
{
    let ghost start = names_views(services@);
    let mut k: usize = 0;
    assert(compose.services@.take(0) =~= Seq::<(String, ComposeService)>::empty());
    assert(start + Seq::<ServiceNamesView>::empty() =~= start);
    while k < compose.services.len()
        invariant
            k <= compose.services@.len(),
            replicas_in_range(compose.services@),
            names_views(services@) == start + all_service_names(
                project_name@,
                compose.services@.take(k as int),
            ),
        decreases compose.services@.len() - k,
    {
        let name = &compose.services[k].0;
        let service = &compose.services[k].1;
        let ghost before = names_views(services@);
        let image = match &service.image {
            Some(i) => copy_string(i),
            None => String::new(),
        };
        let replicas: u8 = match &service.deploy {
            Some(d) => match d.replicas {
                Some(r) => r,
                None => 0,
            },
            None => 0,
        };
        assert(compose.services@[k as int].1.deploy matches Some(d) ==> d.replicas != Some(255u8));
        if replicas > 1 {
            let mut i: u8 = 1;
            while i < 1 + replicas
                invariant
                    1 <= i <= replicas + 1,
                    replicas < 255,
                    replica_count(*service) == Some(replicas as nat),
                    image@ == image_of(*service),
                    names_views(services@) == before + service_names(
                        project_name@,
                        name@,
                        *service,
                    ).take(i - 1),
                decreases replicas + 1 - i,
            {
                let mut container_name = String::from_str(project_name);
                container_name.append("-");
                container_name.append(name.as_str());
                container_name.append("-");
                push_decimal(&mut container_name, i as u64);
                let mut service_name = copy_string(name);
                service_name.append("-");
                push_decimal(&mut service_name, i as u64);
                let entry = StackServiceNames {
                    service_name,
                    container_name,
                    image: copy_string(&image),
                    image_digest: None,
                };
                let ghost prev = names_views(services@);
                services.push(entry);
                assert(names_views(services@) =~= prev.push(entry@));
                assert(service_names(project_name@, name@, *service).take(i as int) =~= service_names(
                    project_name@,
                    name@,
                    *service,
                ).take(i - 1).push(entry@));
                i = i + 1;
            }
            assert(service_names(project_name@, name@, *service).take(replicas as int) =~= service_names(
                project_name@,
                name@,
                *service,
            ));
        } else {
            let container_name = match &service.container_name {
                Some(c) => copy_string(c),
                None => {
                    let mut c = String::from_str(project_name);
                    c.append("-");
                    c.append(name.as_str());
                    c
                },
            };
            let entry = StackServiceNames {
                service_name: copy_string(name),
                container_name,
                image,
                image_digest: None,
            };
            services.push(entry);
            assert(names_views(services@) =~= before.push(entry@));
            assert(service_names(project_name@, name@, *service) =~= seq![entry@]);
        }
        assert(compose.services@.take(k + 1).drop_last() =~= compose.services@.take(k as int));
        assert(names_views(services@) =~= start + all_service_names(
            project_name@,
            compose.services@.take(k + 1),
        ));
        k = k + 1;
    }
    assert(compose.services@.take(compose.services@.len() as int) =~= compose.services@);
}


/// How many containers a service runs: its replica count when above one,
/// else one.
pub open spec fn containers_of(s: ComposeService) -> nat {
    match replica_count(s) {
        Some(n) => n,
        None => 1,
    }
}

/// How many containers the services run in all.
pub open spec fn container_total(services: Seq<(String, ComposeService)>) -> nat
    decreases services.len(),
{
    if services.len() == 0 {
        0
    } else {
        container_total(services.drop_last()) + containers_of(services.last().1)
    }
}

/// One entry per container: a service with `n > 1` replicas gets `n`
/// entries, any other service one.
pub proof fn lemma_one_entry_per_container(project: Seq<char>, services: Seq<(String, ComposeService)>)
    ensures
        all_service_names(project, services).len() == container_total(services),
    decreases services.len(),
{
    if services.len() > 0 {
        lemma_one_entry_per_container(project, services.drop_last());
    }
}


/// A service that asks for `r >= 2` replicas runs exactly `r` containers:
/// the `i`-th (from 1) is the service `{name}-{i}` in the container
/// `{project}-{name}-{i}`, each with the service's image.
pub proof fn lemma_replicated_service_names(project: Seq<char>, name: Seq<char>, s: ComposeService, r: u8)
    requires
        s.deploy matches Some(d) && d.replicas == Some(r),
        r >= 2,
    ensures
        service_names(project, name, s).len() == r,
        forall|i: int|
            0 <= i < r ==> {
                let entry = #[trigger] service_names(project, name, s)[i];
                &&& entry.service_name == name + "-"@ + decimal((i + 1) as nat)
                &&& entry.container_name == project + "-"@ + name + "-"@ + decimal((i + 1) as nat)
                &&& entry.image == image_of(s)
                &&& entry.image_digest is None
            },
{
}

/// A service with no replica count, or a count of 0 or 1, runs a single
/// container: the service `{name}`, in its `container_name` when it gives
/// one, else in `{project}-{name}`.
pub proof fn lemma_single_service_names(project: Seq<char>, name: Seq<char>, s: ComposeService)
    requires
        s.deploy matches Some(d) ==> (d.replicas matches Some(r) ==> r <= 1),
    ensures
        service_names(project, name, s).len() == 1,
        service_names(project, name, s)[0].service_name == name,
        service_names(project, name, s)[0].container_name == match s.container_name {
            Some(c) => c@,
            None => project + "-"@ + name,
        },
        service_names(project, name, s)[0].image == image_of(s),
{
}

/// The containers of a compose file are those of its services, one service
/// after the other: the names of two runs of services are those of the
/// first run followed by those of the second.
pub proof fn lemma_service_names_concat(
    project: Seq<char>,
    a: Seq<(String, ComposeService)>,
    b: Seq<(String, ComposeService)>,
)
    ensures
        all_service_names(project, a + b) == all_service_names(project, a) + all_service_names(
            project,
            b,
        ),
    decreases b.len(),
{
    if b.len() == 0 {
        assert(a + b =~= a);
        assert(all_service_names(project, b) =~= Seq::<ServiceNamesView>::empty());
        assert(all_service_names(project, a) + all_service_names(project, b) =~= all_service_names(project, a));
    } else {
        assert((a + b).drop_last() =~= a + b.drop_last());
        assert((a + b).last() == b.last());
        lemma_service_names_concat(project, a, b.drop_last());
        let x = all_service_names(project, a);
        let y = all_service_names(project, b.drop_last());
        let z = service_names(project, b.last().0@, b.last().1);
        assert(x + y + z =~= x + (y + z));
    }
}

/// An item of `docker compose ls --all --format json`.
#[derive(Debug)]
pub struct DockerComposeLsItem {
    pub name: String,
    pub status: Option<String>,
    /// Comma separated list of paths.
    pub config_files: String,
}

/// A compose project that docker reports.
#[derive(Debug)]
pub struct ComposeProject {
    pub name: String,
    pub status: Option<String>,
    pub compose_files: Vec<String>,
}

/// The model of a `ComposeProject`.
pub struct ComposeProjectView {
    pub name: Seq<char>,
    pub status: Option<Seq<char>>,
    pub compose_files: Seq<Seq<char>>,
}

impl View for ComposeProject {
    type V = ComposeProjectView;

    open spec fn view(&self) -> ComposeProjectView {
        ComposeProjectView {
            name: self.name@,
            status: optional_view(self.status),
            compose_files: string_views(self.compose_files@),
        }
    }
}

pub open spec fn project_views(v: Seq<ComposeProject>) -> Seq<ComposeProjectView> {
    v.map_values(|p: ComposeProject| p@)
}

/// The project an item describes: its files are the pieces of
/// `config_files` between commas.
pub open spec fn project_of(item: DockerComposeLsItem) -> ComposeProjectView {
    ComposeProjectView {
        name: item.name@,
        status: optional_view(item.status),
        compose_files: split_on(item.config_files@, ','),
    }
}

/// The compose files of a listed project are the paths of `config_files`:
/// none holds a comma, and joined with commas they give back
/// `config_files`, so there is one file more than there are commas.
pub proof fn lemma_project_files_are_config_files(item: DockerComposeLsItem)
    ensures
        forall|k: int, j: int|
            0 <= k < project_of(item).compose_files.len() && 0 <= j
                < project_of(item).compose_files[k].len() ==> #[trigger] project_of(
                item,
            ).compose_files[k][j] != ',',
        join_with(project_of(item).compose_files, ',') == item.config_files@,
{
    lemma_split_on_joins_back(item.config_files@, ',');
}

/// The projects of the items that have a name, in the order of the items.
pub open spec fn listed_projects(items: Seq<DockerComposeLsItem>) -> Seq<ComposeProjectView>
    decreases items.len(),
{
    if items.len() == 0 {
        seq![]
    } else {
        let rest = listed_projects(items.drop_last());
        if items.last().name@.len() > 0 {
            rest.push(project_of(items.last()))
        } else {
            rest
        }
    }
}

/// The listing drops exactly the items without a name and keeps every
/// other one, in order, as its project.
pub proof fn lemma_listing_keeps_named_items(items: Seq<DockerComposeLsItem>)
    ensures
        listed_projects(items) == items.filter(|it: DockerComposeLsItem| it.name@.len() > 0).map_values(
            |it: DockerComposeLsItem| project_of(it),
        ),
    decreases items.len(),
{
    reveal(Seq::filter);
    let named = |it: DockerComposeLsItem| it.name@.len() > 0;
    let proj = |it: DockerComposeLsItem| project_of(it);
    if items.len() == 0 {
        assert(items.filter(named) =~= Seq::<DockerComposeLsItem>::empty());
        assert(items.filter(named).map_values(proj) =~= Seq::<ComposeProjectView>::empty());
    } else {
        lemma_listing_keeps_named_items(items.drop_last());
        let sub = items.drop_last().filter(named);
        assert(items.filter(named) == if named(items.last()) {
            sub.push(items.last())
        } else {
            sub
        });
        if named(items.last()) {
            assert(sub.push(items.last()).map_values(proj) =~= sub.map_values(proj).push(
                project_of(items.last()),
            ));
        }
    }
}

/// The order of `Option<String>`: no status comes first.
pub open spec fn status_lt(a: Option<Seq<char>>, b: Option<Seq<char>>) -> bool {
    match (a, b) {
        (None, Some(_)) => true,
        (Some(x), Some(y)) => seq_lt(x, y),
        _ => false,
    }
}

/// The order of the listing: by status, then by name.
pub open spec fn project_lt(a: ComposeProjectView, b: ComposeProjectView) -> bool {
    status_lt(a.status, b.status) || (a.status == b.status && seq_lt(a.name, b.name))
}

/// Two projects that the listing order does not tell apart.
pub open spec fn same_sort_key(a: ComposeProjectView, b: ComposeProjectView) -> bool {
    a.status == b.status && a.name == b.name
}

/// Projects in listing order.
pub open spec fn is_sorted_listing(s: Seq<ComposeProjectView>) -> bool {
    forall|i: int, j: int| 0 <= i < j < s.len() ==> !project_lt(#[trigger] s[j], #[trigger] s[i])
}

/// `perm` is a permutation of `0..n`.
pub open spec fn is_permutation(perm: Seq<int>, n: nat) -> bool {
    &&& perm.len() == n
    &&& forall|i: int| 0 <= i < n ==> 0 <= #[trigger] perm[i] < n
    &&& forall|i: int, j: int| 0 <= i < n && 0 <= j < n && i != j ==> #[trigger] perm[i] != #[trigger] perm[j]
    &&& forall|k: int| 0 <= k < n ==> #[trigger] occurs_in(perm, k)
}

/// `k` is one of the entries of `perm`.
pub open spec fn occurs_in(perm: Seq<int>, k: int) -> bool {
    exists|i: int| 0 <= i < perm.len() && perm[i] == k
}

/// `r` is `m` in listing order, projects with the same status and name kept
/// in their order in `m` (what the stable `sort_by` gives).
pub open spec fn is_stable_sort_of(r: Seq<ComposeProjectView>, m: Seq<ComposeProjectView>) -> bool {
    &&& is_sorted_listing(r)
    &&& exists|perm: Seq<int>|
        {
            &&& is_permutation(perm, m.len())
            &&& r.len() == m.len()
            &&& forall|i: int| 0 <= i < r.len() ==> #[trigger] r[i] == m[perm[i]]
            &&& forall|i: int, j: int|
                0 <= i < j < r.len() && same_sort_key(r[i], r[j]) ==> #[trigger] perm[i]
                    < #[trigger] perm[j]
        }
}

proof fn lemma_project_lt_irreflexive(a: ComposeProjectView)
    ensures
        !project_lt(a, a),
{
    lemma_seq_lt_irreflexive(a.name);
    if let Some(x) = a.status {
        lemma_seq_lt_irreflexive(x);
    }
}

proof fn lemma_project_lt_transitive(a: ComposeProjectView, b: ComposeProjectView, c: ComposeProjectView)
    requires
        project_lt(a, b),
        project_lt(b, c),
    ensures
        project_lt(a, c),
{
    if let (Some(x), Some(y), Some(z)) = (a.status, b.status, c.status) {
        if seq_lt(x, y) && seq_lt(y, z) {
            lemma_seq_lt_transitive(x, y, z);
        }
    }
    if a.status == b.status && b.status == c.status {
        if let Some(x) = a.status {
            lemma_seq_lt_irreflexive(x);
        }
        lemma_seq_lt_transitive(a.name, b.name, c.name);
    }
}

/// Whether `a` comes before `b` in the listing.
fn project_less(a: &ComposeProject, b: &ComposeProject) -> (r: bool)
    ensures
        r == project_lt(a@, b@),
{
    let name_less = chars_less(&chars_of(a.name.as_str()), &chars_of(b.name.as_str()));
    match (&a.status, &b.status) {
        (None, Some(_)) => true,
        (Some(_), None) => false,
        (None, None) => name_less,
        (Some(x), Some(y)) => {
            let xs = chars_of(x.as_str());
            let ys = chars_of(y.as_str());
            if chars_less(&xs, &ys) {
                true
            } else if chars_less(&ys, &xs) {
                false
            } else {
                proof {
                    lemma_seq_lt_total(xs@, ys@);
                }
                name_less
            }
        },
    }
}

/// The projects of `docker compose ls` from its items: the items with a
/// name, each with its comma separated files split apart, ordered by status
/// and then by name (stable, as `sort_by` is).
pub fn list_compose_projects(items: Vec<DockerComposeLsItem>) -> (r: Vec<ComposeProject>)
    ensures
        is_stable_sort_of(project_views(r@), listed_projects(items@)),
{
    let ghost all = items@;
    let mut out: Vec<ComposeProject> = Vec::new();
    let ghost mut perm: Seq<int> = seq![];
    assert(all.take(0) =~= Seq::<DockerComposeLsItem>::empty());
    for item in it: items.into_iter()
        invariant
            it.seq() == all,
            is_sorted_listing(project_views(out@)),
            is_permutation(perm, listed_projects(all.take(it.index())).len()),
            out@.len() == listed_projects(all.take(it.index())).len(),
            forall|i: int|
                0 <= i < out@.len() ==> #[trigger] project_views(out@)[i] == listed_projects(
                    all.take(it.index()),
                )[perm[i]],
            forall|i: int, j: int|
                0 <= i < j < out@.len() && same_sort_key(
                    project_views(out@)[i],
                    project_views(out@)[j],
                ) ==> #[trigger] perm[i] < #[trigger] perm[j],
    {
        let ghost k = it.index();
        let ghost m_old = listed_projects(all.take(k));
        proof {
            assert(all.take(k + 1).drop_last() =~= all.take(k));
            assert(all.take(k + 1).last() == item);
        }
        if !item.name.as_str().is_empty() {
            let DockerComposeLsItem { name, status, config_files } = item;
            let files = split_chars(&chars_of(config_files.as_str()), ',');
            let project = ComposeProject { name, status, compose_files: files };
            assert(project@ == project_of(item));
            let ghost v_old = project_views(out@);
            let mut p: usize = 0;
            while p < out.len() && !project_less(&project, &out[p])
                invariant
                    p <= out@.len(),
                    v_old == project_views(out@),
                    forall|j: int| 0 <= j < p ==> !project_lt(project@, #[trigger] v_old[j]),
                decreases out@.len() - p,
            {
                p = p + 1;
            }
            let ghost n_old = m_old.len();
            out.insert(p, project);
            proof {
                let v_new = project_views(out@);
                assert(v_new =~= v_old.insert(p as int, project@));
                let perm_new = perm.insert(p as int, n_old as int);
                let m_new = m_old.push(project@);
                assert(listed_projects(all.take(k + 1)) == m_new);
                assert forall|i: int, j: int| 0 <= i < j < v_new.len() implies !project_lt(
                    #[trigger] v_new[j],
                    #[trigger] v_new[i],
                ) by {
                    if i < p && j == p {
                    } else if i == p && j > p {
                        if project_lt(v_new[j], project@) {
                            lemma_project_lt_transitive(v_new[j], project@, v_old[p as int]);
                            if j - 1 == p {
                                lemma_project_lt_irreflexive(v_old[p as int]);
                            } else {
                                assert(!project_lt(v_old[j - 1], v_old[p as int]));
                            }
                        }
                    } else if i < p && j < p {
                        assert(v_new[i] == v_old[i] && v_new[j] == v_old[j]);
                    } else if i < p && j > p {
                        assert(v_new[i] == v_old[i] && v_new[j] == v_old[j - 1]);
                    } else {
                        assert(v_new[i] == v_old[i - 1] && v_new[j] == v_old[j - 1]);
                    }
                }
                assert forall|i: int| 0 <= i < v_new.len() implies #[trigger] v_new[i]
                    == m_new[perm_new[i]] by {
                    if i < p {
                        assert(v_new[i] == v_old[i]);
                    } else if i > p {
                        assert(v_new[i] == v_old[i - 1]);
                    }
                }
                assert forall|i: int, j: int|
                    0 <= i < j < v_new.len() && same_sort_key(
                        v_new[i],
                        v_new[j],
                    ) implies #[trigger] perm_new[i] < #[trigger] perm_new[j] by {
                    if i == p {
                        // nothing after the new project has its key
                        lemma_project_lt_irreflexive(v_new[j]);
                        if j - 1 == p {
                            lemma_project_lt_irreflexive(v_old[p as int]);
                        } else {
                            assert(!project_lt(v_old[j - 1], v_old[p as int]));
                        }
                    } else if j == p {
                    } else if i < p && j < p {
                        assert(v_new[i] == v_old[i] && v_new[j] == v_old[j]);
                    } else if i < p && j > p {
                        assert(v_new[i] == v_old[i] && v_new[j] == v_old[j - 1]);
                    } else {
                        assert(v_new[i] == v_old[i - 1] && v_new[j] == v_old[j - 1]);
                    }
                }
                assert forall|t: int| 0 <= t < n_old + 1 implies #[trigger] occurs_in(perm_new, t) by {
                    if t == n_old {
                        assert(perm_new[p as int] == t);
                    } else {
                        assert(occurs_in(perm, t));
                        let i = choose|i: int| 0 <= i < perm.len() && #[trigger] perm[i] == t;
                        if i < p {
                            assert(perm_new[i] == t);
                        } else {
                            assert(perm_new[i + 1] == t);
                        }
                    }
                }
                perm = perm_new;
            }
        } else {
            assert(listed_projects(all.take(k + 1)) == m_old);
        }
    }
    proof {
        assert(all.take(all.len() as int) =~= all);
        let w = perm;
        assert(is_permutation(w, listed_projects(all).len()));
    }
    out
}


/// The order of a stable listing on the positions of `m`: by status and
/// name, and by position among equal projects.
pub open spec fn listed_before(m: Seq<ComposeProjectView>, a: int, b: int) -> bool {
    project_lt(m[a], m[b]) || (same_sort_key(m[a], m[b]) && a < b)
}

proof fn lemma_project_order_total(x: ComposeProjectView, y: ComposeProjectView)
    ensures
        project_lt(x, y) || project_lt(y, x) || same_sort_key(x, y),
{
    if let (Some(a), Some(b)) = (x.status, y.status) {
        lemma_seq_lt_total(a, b);
    }
    lemma_seq_lt_total(x.name, y.name);
}

proof fn lemma_listed_before_asymmetric(m: Seq<ComposeProjectView>, a: int, b: int)
    ensures
        !(listed_before(m, a, b) && listed_before(m, b, a)),
{
    let x = m[a];
    let y = m[b];
    lemma_project_lt_irreflexive(x);
    lemma_project_lt_irreflexive(y);
    if project_lt(x, y) && project_lt(y, x) {
        lemma_project_lt_transitive(x, y, x);
    }
}

proof fn lemma_stable_sort_increasing(r: Seq<ComposeProjectView>, m: Seq<ComposeProjectView>, perm: Seq<int>)
    requires
        is_sorted_listing(r),
        is_permutation(perm, m.len()),
        r.len() == m.len(),
        forall|i: int| 0 <= i < r.len() ==> #[trigger] r[i] == m[perm[i]],
        forall|i: int, j: int|
            0 <= i < j < r.len() && same_sort_key(r[i], r[j]) ==> #[trigger] perm[i]
                < #[trigger] perm[j],
    ensures
        forall|i: int, j: int|
            0 <= i < j < r.len() ==> listed_before(m, #[trigger] perm[i], #[trigger] perm[j]),
{
    assert forall|i: int, j: int| 0 <= i < j < r.len() implies listed_before(
        m,
        #[trigger] perm[i],
        #[trigger] perm[j],
    ) by {
        assert(r[i] == m[perm[i]] && r[j] == m[perm[j]]);
        assert(!project_lt(r[j], r[i]));
        lemma_project_order_total(r[i], r[j]);
    }
}

proof fn lemma_same_entry(m: Seq<ComposeProjectView>, p: Seq<int>, q: Seq<int>, i: int)
    requires
        is_permutation(p, m.len()),
        is_permutation(q, m.len()),
        forall|a: int, b: int|
            0 <= a < b < m.len() ==> listed_before(m, #[trigger] p[a], #[trigger] p[b]),
        forall|a: int, b: int|
            0 <= a < b < m.len() ==> listed_before(m, #[trigger] q[a], #[trigger] q[b]),
        0 <= i < m.len(),
        forall|j: int| 0 <= j < i ==> p[j] == q[j],
    ensures
        p[i] == q[i],
{
    let a = p[i];
    let b = q[i];
    if a != b {
        assert(occurs_in(q, a));
        let j = choose|j: int| 0 <= j < q.len() && q[j] == a;
        if j < i {
            assert(p[j] == a);
        }
        assert(occurs_in(p, b));
        let k = choose|k: int| 0 <= k < p.len() && p[k] == b;
        if k < i {
            assert(q[k] == b);
        }
        assert(listed_before(m, q[i], q[j]));
        assert(listed_before(m, p[i], p[k]));
        lemma_listed_before_asymmetric(m, a, b);
    }
}

proof fn lemma_same_prefix(m: Seq<ComposeProjectView>, p: Seq<int>, q: Seq<int>, n: int)
    requires
        is_permutation(p, m.len()),
        is_permutation(q, m.len()),
        forall|a: int, b: int|
            0 <= a < b < m.len() ==> listed_before(m, #[trigger] p[a], #[trigger] p[b]),
        forall|a: int, b: int|
            0 <= a < b < m.len() ==> listed_before(m, #[trigger] q[a], #[trigger] q[b]),
        0 <= n <= m.len(),
    ensures
        forall|j: int| 0 <= j < n ==> p[j] == q[j],
    decreases n,
{
    if n > 0 {
        lemma_same_prefix(m, p, q, n - 1);
        lemma_same_entry(m, p, q, n - 1);
    }
}

/// The listing is fully determined by the items: two lists of the same
/// projects, both in status and name order and both keeping equal projects
/// in their original order, are the same list.
pub proof fn lemma_listing_is_unique(
    r1: Seq<ComposeProjectView>,
    r2: Seq<ComposeProjectView>,
    m: Seq<ComposeProjectView>,
)
    requires
        is_stable_sort_of(r1, m),
        is_stable_sort_of(r2, m),
    ensures
        r1 == r2,
{
    let p = choose|perm: Seq<int>|
        {
            &&& is_permutation(perm, m.len())
            &&& r1.len() == m.len()
            &&& forall|i: int| 0 <= i < r1.len() ==> #[trigger] r1[i] == m[perm[i]]
            &&& forall|i: int, j: int|
                0 <= i < j < r1.len() && same_sort_key(r1[i], r1[j]) ==> #[trigger] perm[i]
                    < #[trigger] perm[j]
        };
    let q = choose|perm: Seq<int>|
        {
            &&& is_permutation(perm, m.len())
            &&& r2.len() == m.len()
            &&& forall|i: int| 0 <= i < r2.len() ==> #[trigger] r2[i] == m[perm[i]]
            &&& forall|i: int, j: int|
                0 <= i < j < r2.len() && same_sort_key(r2[i], r2[j]) ==> #[trigger] perm[i]
                    < #[trigger] perm[j]
        };
    lemma_stable_sort_increasing(r1, m, p);
    lemma_stable_sort_increasing(r2, m, q);
    lemma_same_prefix(m, p, q, m.len() as int);
    assert forall|i: int| 0 <= i < r1.len() implies r1[i] == r2[i] by {
        assert(r1[i] == m[p[i]]);
        assert(r2[i] == m[q[i]]);
    }
    assert(r1 =~= r2);
}

} // verus!
