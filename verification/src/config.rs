//! The configuration of the fleet and its expansion into node descriptors.

use vstd::prelude::*;
use vstd::string::StringExecFns;
use crate::error::Error;
use crate::error::ErrorView;
use crate::group::texts;
use crate::group::Group;
use crate::group::GroupView;
use crate::network::NetworkId;
use crate::node::node_of;
use crate::node::node_views;
use crate::node::node_of_config;
use crate::node::Node;
use crate::node::NodeConfig;
use crate::node::NodeConfigView;
use crate::node::NodeView;
use crate::services::Service;
use crate::text::contains_char;
use crate::text::lowercase_of;
use crate::text::replace_char;
use crate::text::replaced;
use crate::text::same_text;
use crate::text::to_lowercase;
use crate::transport::address_of;
use crate::transport::Transport;
use crate::transport::TransportDictionary;
use crate::transport::TransportView;

verus! {

/// The configuration of the fleet: named address templates, groups of nodes
/// and single nodes.
#[derive(Debug)]
pub struct Config {
    pub transports: Option<TransportDictionary>,
    pub groups: Option<Vec<Group>>,
    pub nodes: Option<Vec<NodeConfig>>,
}

/// The mathematical value of a [`Config`]; what is absent is empty.
pub struct ConfigView {
    pub transports: Map<Seq<char>, TransportView>,
    pub groups: Seq<GroupView>,
    pub nodes: Seq<NodeConfigView>,
}

impl View for Config {
    type V = ConfigView;

    open spec fn view(&self) -> ConfigView {
        ConfigView {
            transports: match self.transports {
                Some(d) => d@,
                None => Map::empty(),
            },
            groups: match self.groups {
                Some(g) => group_views(g@),
                None => Seq::empty(),
            },
            nodes: match self.nodes {
                Some(n) => entry_views(n@),
                None => Seq::empty(),
            },
        }
    }
}

/// The values of a list of groups.
pub open spec fn group_views(list: Seq<Group>) -> Seq<GroupView> {
    list.map_values(|g: Group| g@)
}

/// The values of a list of node entries.
pub open spec fn entry_views(list: Seq<NodeConfig>) -> Seq<NodeConfigView> {
    list.map_values(|n: NodeConfig| n@)
}

/// The descriptors of the node entries that are in use, in their order.
pub open spec fn entry_nodes(entries: Seq<NodeConfigView>) -> Seq<NodeView>
    decreases entries.len(),
{
    if entries.len() == 0 {
        Seq::empty()
    } else if entries.last().enabled() {
        entry_nodes(entries.drop_last()).push(node_of_config(entries.last()))
    } else {
        entry_nodes(entries.drop_last())
    }
}

/// The groups that are in use, in their order.
pub open spec fn enabled_groups(groups: Seq<GroupView>) -> Seq<GroupView>
    decreases groups.len(),
{
    if groups.len() == 0 {
        Seq::empty()
    } else if groups.last().enabled() {
        enabled_groups(groups.drop_last()).push(groups.last())
    } else {
        enabled_groups(groups.drop_last())
    }
}

/// Whether the group at `j` has the host name pattern of an earlier group.
pub open spec fn repeats(groups: Seq<GroupView>, j: int) -> bool {
    exists|i: int| 0 <= i < j && (#[trigger] groups[i]).fqdn == groups[j].fqdn
}

/// Whether `j` is the position of the first group that has the host name
/// pattern of an earlier group.
pub open spec fn first_repeat_at(groups: Seq<GroupView>, j: int) -> bool {
    &&& 0 <= j < groups.len()
    &&& repeats(groups, j)
    &&& forall|k: int| 0 <= k < j ==> !#[trigger] repeats(groups, k)
}

/// The descriptor of the node named `id` of a group: the name, in lower
/// case, takes the place of the wildcard in the host name, and the address
/// is made from the template of the transport.
pub open spec fn member_node(
    service: Service,
    network: NetworkId,
    transport: TransportView,
    pattern: Seq<char>,
    id: Seq<char>,
) -> NodeView {
    let fqdn = replaced(pattern, '*', lowercase_of(id));
    node_of(
        service,
        network,
        transport.kind,
        transport.tls,
        fqdn,
        address_of(transport.template, transport.kind, fqdn, service, network),
    )
}

/// The descriptors of the nodes of the given names for one service, network
/// and transport.
pub open spec fn id_nodes(
    service: Service,
    network: NetworkId,
    transport: TransportView,
    pattern: Seq<char>,
    ids: Seq<Seq<char>>,
) -> Seq<NodeView> {
    Seq::new(ids.len(), |k: int| member_node(service, network, transport, pattern, ids[k]))
}

/// The descriptors of the nodes of the given names for one service and
/// network, for each of the named transports that the dictionary knows.
pub open spec fn transport_nodes(
    service: Service,
    network: NetworkId,
    dict: Map<Seq<char>, TransportView>,
    pattern: Seq<char>,
    names: Seq<Seq<char>>,
    ids: Seq<Seq<char>>,
) -> Seq<NodeView>
    decreases names.len(),
{
    if names.len() == 0 {
        Seq::empty()
    } else {
        transport_nodes(service, network, dict, pattern, names.drop_last(), ids) + (
        if dict.contains_key(names.last()) {
            id_nodes(service, network, dict[names.last()], pattern, ids)
        } else {
            Seq::empty()
        })
    }
}

/// The descriptors of the nodes of one service on each of the given
/// networks.
pub open spec fn network_nodes(
    service: Service,
    dict: Map<Seq<char>, TransportView>,
    pattern: Seq<char>,
    names: Seq<Seq<char>>,
    networks: Seq<(NetworkId, Seq<Seq<char>>)>,
) -> Seq<NodeView>
    decreases networks.len(),
{
    if networks.len() == 0 {
        Seq::empty()
    } else {
        network_nodes(service, dict, pattern, names, networks.drop_last()) + transport_nodes(
            service,
            networks.last().0,
            dict,
            pattern,
            names,
            networks.last().1,
        )
    }
}

/// The descriptors of the nodes of a group for each of the given services.
pub open spec fn service_nodes(
    group: GroupView,
    dict: Map<Seq<char>, TransportView>,
    services: Seq<Service>,
) -> Seq<NodeView>
    decreases services.len(),
{
    if services.len() == 0 {
        Seq::empty()
    } else {
        service_nodes(group, dict, services.drop_last()) + network_nodes(
            services.last(),
            dict,
            group.fqdn,
            group.transports,
            group.network,
        )
    }
}

/// The descriptors of the nodes of a group: for each service, each network,
/// each transport and each name one node; none if the host name pattern has
/// no wildcard.
pub open spec fn group_nodes(group: GroupView, dict: Map<Seq<char>, TransportView>) -> Seq<
    NodeView,
> {
    if group.valid() {
        service_nodes(group, dict, group.services)
    } else {
        Seq::empty()
    }
}

/// The descriptors of the nodes of the groups that are in use.
pub open spec fn groups_nodes(groups: Seq<GroupView>, dict: Map<Seq<char>, TransportView>) -> Seq<
    NodeView,
>
    decreases groups.len(),
{
    if groups.len() == 0 {
        Seq::empty()
    } else {
        groups_nodes(groups.drop_last(), dict) + (if groups.last().enabled() {
            group_nodes(groups.last(), dict)
        } else {
            Seq::empty()
        })
    }
}

impl ConfigView {
    /// The descriptors that the configuration stands for: those of its node
    /// entries in use, then those of its groups in use.
    pub open spec fn nodes_of(self) -> Seq<NodeView> {
        entry_nodes(self.nodes) + groups_nodes(self.groups, self.transports)
    }

    /// Whether two groups in use have the same host name pattern.
    pub open spec fn has_duplicate_group(self) -> bool {
        exists|j: int| first_repeat_at(enabled_groups(self.groups), j)
    }

    /// The message that tells of the first group in use that has the host
    /// name pattern of an earlier one.
    pub open spec fn duplicate_message(self) -> Seq<char> {
        "Duplicate group: "@ + enabled_groups(self.groups)[choose|j: int|
            first_repeat_at(enabled_groups(self.groups), j)].fqdn
    }
}

fn make_id_nodes(
    service: Service,
    network: NetworkId,
    transport: &Transport,
    pattern: &str,
    ids: &Vec<String>,
    out: &mut Vec<Node>,
)
    ensures
        node_views(final(out)@) == node_views(old(out)@) + id_nodes(
            service,
            network,
            transport@,
            pattern@,
            texts(ids@),
        ),
{
    let ghost start = node_views(out@);
    let ghost all = id_nodes(service, network, transport@, pattern@, texts(ids@));
    let mut k: usize = 0;
    proof {
        assert(start + all.subrange(0, 0) =~= start);
    }
    while k < ids.len()
        invariant
            k <= ids.len(),
            all == id_nodes(service, network, transport@, pattern@, texts(ids@)),
            node_views(out@) == start + all.subrange(0, k as int),
        decreases ids.len() - k,
    {
        let id = to_lowercase(ids[k].as_str());
        let fqdn = replace_char(pattern, '*', id.as_str());
        let address = transport.make_address(fqdn.as_str(), &service, &network);
        let node = Node::new(&service, network, transport, fqdn.as_str(), address.as_str());
        let ghost before = node_views(out@);
        proof {
            assert(texts(ids@)[k as int] == ids@[k as int]@);
            assert(node@ == all[k as int]);
        }
        out.push(node);
        proof {
            assert(node_views(out@) =~= before.push(all[k as int]));
            assert(start + all.subrange(0, k as int + 1) =~= (start + all.subrange(0, k as int)).push(
                all[k as int],
            ));
        }
        k += 1;
    }
    proof {
        assert(all.subrange(0, ids.len() as int) =~= all);
    }
}

fn make_transport_nodes(
    service: Service,
    network: NetworkId,
    dict: &TransportDictionary,
    pattern: &str,
    names: &Vec<String>,
    ids: &Vec<String>,
    out: &mut Vec<Node>,
)
    ensures
        node_views(final(out)@) == node_views(old(out)@) + transport_nodes(
            service,
            network,
            dict@,
            pattern@,
            texts(names@),
            texts(ids@),
        ),
{
    let ghost start = node_views(out@);
    let ghost all = texts(names@);
    let mut k: usize = 0;
    proof {
        assert(all.subrange(0, 0) =~= Seq::<Seq<char>>::empty());
        assert(start + Seq::<NodeView>::empty() =~= start);
    }
    while k < names.len()
        invariant
            k <= names.len(),
            all == texts(names@),
            node_views(out@) == start + transport_nodes(
                service,
                network,
                dict@,
                pattern@,
                all.subrange(0, k as int),
                texts(ids@),
            ),
        decreases names.len() - k,
    {
        let ghost before = node_views(out@);
        let ghost done = transport_nodes(
            service,
            network,
            dict@,
            pattern@,
            all.subrange(0, k as int),
            texts(ids@),
        );
        proof {
            assert(all.subrange(0, k as int + 1).drop_last() =~= all.subrange(0, k as int));
            assert(all.subrange(0, k as int + 1).last() == names@[k as int]@);
        }
        match dict.get(names[k].as_str()) {
            Some(transport) => {
                make_id_nodes(service, network, transport, pattern, ids, out);
                proof {
                    let more = id_nodes(service, network, transport@, pattern@, texts(ids@));
                    assert((start + done) + more =~= start + (done + more));
                }
            },
            None => {
                proof {
                    assert(done + Seq::<NodeView>::empty() =~= done);
                }
            },
        }
        k += 1;
    }
    proof {
        assert(all.subrange(0, names.len() as int) =~= all);
    }
}

fn make_network_nodes(
    service: Service,
    dict: &TransportDictionary,
    group: &Group,
    out: &mut Vec<Node>,
)
    ensures
        node_views(final(out)@) == node_views(old(out)@) + network_nodes(
            service,
            dict@,
            group@.fqdn,
            group@.transports,
            group@.network,
        ),
{
    let ghost start = node_views(out@);
    let ghost all = group@.network;
    let mut k: usize = 0;
    proof {
        assert(all.subrange(0, 0) =~= Seq::<(NetworkId, Seq<Seq<char>>)>::empty());
        assert(start + Seq::<NodeView>::empty() =~= start);
    }
    while k < group.network.len()
        invariant
            k <= group.network.len(),
            all == group@.network,
            node_views(out@) == start + network_nodes(
                service,
                dict@,
                group@.fqdn,
                group@.transports,
                all.subrange(0, k as int),
            ),
        decreases group.network.len() - k,
    {
        let ghost done = network_nodes(
            service,
            dict@,
            group@.fqdn,
            group@.transports,
            all.subrange(0, k as int),
        );
        proof {
            assert(all.subrange(0, k as int + 1).drop_last() =~= all.subrange(0, k as int));
            assert(all.subrange(0, k as int + 1).last() == (
                group.network@[k as int].0,
                texts(group.network@[k as int].1@),
            ));
        }
        make_transport_nodes(
            service,
            group.network[k].0,
            dict,
            group.fqdn.as_str(),
            &group.transports,
            &group.network[k].1,
            out,
        );
        proof {
            let more = transport_nodes(
                service,
                all[k as int].0,
                dict@,
                group@.fqdn,
                group@.transports,
                all[k as int].1,
            );
            assert((start + done) + more =~= start + (done + more));
        }
        k += 1;
    }
    proof {
        assert(all.subrange(0, group.network.len() as int) =~= all);
    }
}

fn make_group_nodes(dict: &TransportDictionary, group: &Group, out: &mut Vec<Node>)
    ensures
        node_views(final(out)@) == node_views(old(out)@) + group_nodes(group@, dict@),
{
    let ghost start = node_views(out@);
    if !contains_char(group.fqdn.as_str(), '*') {
        proof {
            assert(start + Seq::<NodeView>::empty() =~= start);
        }
        return ;
    }
    let ghost all = group@.services;
    let mut k: usize = 0;
    proof {
        assert(all.subrange(0, 0) =~= Seq::<Service>::empty());
        assert(start + Seq::<NodeView>::empty() =~= start);
    }
    while k < group.services.len()
        invariant
            k <= group.services.len(),
            all == group@.services,
            node_views(out@) == start + service_nodes(group@, dict@, all.subrange(0, k as int)),
        decreases group.services.len() - k,
    {
        let ghost done = service_nodes(group@, dict@, all.subrange(0, k as int));
        proof {
            assert(all.subrange(0, k as int + 1).drop_last() =~= all.subrange(0, k as int));
            assert(all.subrange(0, k as int + 1).last() == group.services@[k as int]);
        }
        make_network_nodes(group.services[k], dict, group, out);
        proof {
            let more = network_nodes(
                all[k as int],
                dict@,
                group@.fqdn,
                group@.transports,
                group@.network,
            );
            assert((start + done) + more =~= start + (done + more));
        }
        k += 1;
    }
    proof {
        assert(all.subrange(0, group.services.len() as int) =~= all);
    }
}

/// Finds the first group in use that has the host name pattern of an
/// earlier group in use.
fn find_duplicate<'a>(groups: &'a Vec<Group>) -> (found: Option<&'a str>)
    ensures
        match found {
            Some(name) => exists|j: int|
                #[trigger] first_repeat_at(enabled_groups(group_views(groups@)), j)
                    && enabled_groups(group_views(groups@))[j].fqdn == name@,
            None => forall|j: int|
                !#[trigger] first_repeat_at(enabled_groups(group_views(groups@)), j),
        },
{
    let ghost all = group_views(groups@);
    let mut seen: Vec<&'a str> = Vec::new();
    let mut k: usize = 0;
    proof {
        assert(all.subrange(0, 0) =~= Seq::<GroupView>::empty());
    }
    while k < groups.len()
        invariant
            k <= groups.len(),
            all == group_views(groups@),
            seen@.len() == enabled_groups(all.subrange(0, k as int)).len(),
            forall|i: int|
                0 <= i < seen@.len() ==> (#[trigger] seen@[i])@ == enabled_groups(
                    all.subrange(0, k as int),
                )[i].fqdn,
            forall|j: int|
                0 <= j < seen@.len() ==> !#[trigger] repeats(
                    enabled_groups(all.subrange(0, k as int)),
                    j,
                ),
            enabled_groups(all.subrange(0, k as int)).is_prefix_of(enabled_groups(all)),
        decreases groups.len() - k,
    {
        let ghost prev = enabled_groups(all.subrange(0, k as int));
        proof {
            assert(all.subrange(0, k as int + 1).drop_last() =~= all.subrange(0, k as int));
            assert(all.subrange(0, k as int + 1).last() == groups@[k as int]@);
            lemma_enabled_prefix(all, k as int + 1);
        }
        let enabled = match groups[k].enable {
            Some(b) => b,
            None => true,
        };
        if enabled {
            let name = groups[k].fqdn.as_str();
            let ghost grown = prev.push(groups@[k as int]@);
            let mut i: usize = 0;
            proof {
                assert(grown == enabled_groups(all.subrange(0, k as int + 1)));
            }
            while i < seen.len()
                invariant
                    i <= seen.len(),
                    k < groups.len(),
                    all == group_views(groups@),
                    grown.is_prefix_of(enabled_groups(all)),
                    forall|j: int| 0 <= j < prev.len() ==> !#[trigger] repeats(prev, j),
                    seen@.len() == prev.len(),
                    name@ == groups@[k as int]@.fqdn,
                    grown == prev.push(groups@[k as int]@),
                    forall|x: int| 0 <= x < seen@.len() ==> (#[trigger] seen@[x])@ == prev[x].fqdn,
                    forall|x: int| 0 <= x < i ==> (#[trigger] grown[x]).fqdn != name@,
                decreases seen.len() - i,
            {
                if same_text(seen[i], name) {
                    proof {
                        let j = prev.len() as int;
                        let full = enabled_groups(all);
                        assert(grown.is_prefix_of(full));
                        assert(grown[i as int].fqdn == grown[j].fqdn);
                        assert forall|x: int| 0 <= x <= j implies full[x] == grown[x] by {}
                        assert(full[i as int].fqdn == full[j].fqdn);
                        assert(repeats(full, j));
                        assert forall|x: int| 0 <= x < j implies !#[trigger] repeats(full, x) by {
                            if repeats(full, x) {
                                let y = choose|y: int| 0 <= y < x && (#[trigger] full[y]).fqdn == full[x].fqdn;
                                assert(prev[y].fqdn == prev[x].fqdn);
                                assert(repeats(prev, x));
                            }
                        }
                        assert(first_repeat_at(full, j));
                    }
                    return Some(name);
                }
                i += 1;
            }
            proof {
                assert forall|j: int| 0 <= j < grown.len() implies !#[trigger] repeats(grown, j) by {
                    if repeats(grown, j) {
                        let y = choose|y: int| 0 <= y < j && (#[trigger] grown[y]).fqdn == grown[j].fqdn;
                        if j < prev.len() {
                            assert(prev[y].fqdn == prev[j].fqdn);
                            assert(repeats(prev, j));
                        }
                    }
                }
            }
            seen.push(name);
        }
        k += 1;
    }
    proof {
        assert(all.subrange(0, groups.len() as int) =~= all);
        let full = enabled_groups(all);
        assert forall|j: int| !#[trigger] first_repeat_at(full, j) by {
            if first_repeat_at(full, j) {
                assert(!repeats(full, j));
            }
        }
    }
    None
}

/// The groups in use among the first `n` come first among all groups in
/// use.
proof fn lemma_enabled_prefix(all: Seq<GroupView>, n: int)
    requires
        0 <= n <= all.len(),
    ensures
        enabled_groups(all.subrange(0, n)).is_prefix_of(enabled_groups(all)),
    decreases all.len() - n,
{
    if n == all.len() {
        assert(all.subrange(0, n) =~= all);
    } else {
        lemma_enabled_prefix(all, n + 1);
        assert(all.subrange(0, n + 1).drop_last() =~= all.subrange(0, n));
    }
}

impl Config {
    /// Expands the configuration into node descriptors.
    ///
    /// Entries and groups that are switched off are passed over, and so are
    /// groups whose host name pattern has no wildcard and transports that
    /// the dictionary does not know. Two groups in use with the same host
    /// name pattern are an error.
    pub fn into_nodes(&self) -> (r: Result<Vec<Node>, Error>)
        ensures
            match r {
                Ok(nodes) => !self@.has_duplicate_group() && node_views(nodes@) == self@.nodes_of(),
                Err(e) => self@.has_duplicate_group() && e@ == ErrorView::Config(
                    self@.duplicate_message(),
                ),
            },
    {
        let no_groups: Vec<Group> = Vec::new();
        let groups = match &self.groups {
            Some(g) => g,
            None => &no_groups,
        };
        let empty = TransportDictionary::new();
        let dict = match &self.transports {
            Some(d) => d,
            None => &empty,
        };
        proof {
            assert(group_views(groups@) =~= self@.groups);
            assert(dict@ == self@.transports);
        }
        match find_duplicate(groups) {
            Some(name) => {
                let mut message = String::from_str("Duplicate group: ");
                message.append(name);
                proof {
                    let full = enabled_groups(self@.groups);
                    let j = choose|j: int| #[trigger] first_repeat_at(full, j) && full[j].fqdn == name@;
                    let c = choose|c: int| first_repeat_at(full, c);
                    if c < j {
                        assert(!repeats(full, c));
                    }
                    if j < c {
                        assert(!repeats(full, j));
                    }
                }
                return Err(Error::Config(message));
            },
            None => {},
        }
        let mut out: Vec<Node> = Vec::new();
        proof {
            assert(node_views(out@) =~= Seq::<NodeView>::empty());
        }
        match &self.nodes {
            Some(entries) => {
                let ghost all = entry_views(entries@);
                let mut k: usize = 0;
                proof {
                    assert(all.subrange(0, 0) =~= Seq::<NodeConfigView>::empty());
                }
                while k < entries.len()
                    invariant
                        k <= entries.len(),
                        all == entry_views(entries@),
                        node_views(out@) == entry_nodes(all.subrange(0, k as int)),
                    decreases entries.len() - k,
                {
                    proof {
                        assert(all.subrange(0, k as int + 1).drop_last() =~= all.subrange(
                            0,
                            k as int,
                        ));
                        assert(all.subrange(0, k as int + 1).last() == entries@[k as int]@);
                    }
                    let enabled = match entries[k].enable {
                        Some(b) => b,
                        None => true,
                    };
                    if enabled {
                        let ghost before = node_views(out@);
                        let node = Node::from_config(&entries[k]);
                        out.push(node);
                        proof {
                            assert(node_views(out@) =~= before.push(node_of_config(entries@[k as int]@)));
                        }
                    }
                    k += 1;
                }
                proof {
                    assert(all.subrange(0, entries.len() as int) =~= all);
                }
            },
            None => {},
        }
        let ghost first = node_views(out@);
        let ghost all = self@.groups;
        let mut k: usize = 0;
        proof {
            assert(all.subrange(0, 0) =~= Seq::<GroupView>::empty());
            assert(first + Seq::<NodeView>::empty() =~= first);
        }
        while k < groups.len()
            invariant
                k <= groups.len(),
                all == group_views(groups@),
                dict@ == self@.transports,
                node_views(out@) == first + groups_nodes(all.subrange(0, k as int), dict@),
            decreases groups.len() - k,
        {
            let ghost done = groups_nodes(all.subrange(0, k as int), dict@);
            proof {
                assert(all.subrange(0, k as int + 1).drop_last() =~= all.subrange(0, k as int));
                assert(all.subrange(0, k as int + 1).last() == groups@[k as int]@);
            }
            let enabled = match groups[k].enable {
                Some(b) => b,
                None => true,
            };
            if enabled {
                make_group_nodes(dict, &groups[k], &mut out);
                proof {
                    let more = group_nodes(groups@[k as int]@, dict@);
                    assert((first + done) + more =~= first + (done + more));
                }
            } else {
                proof {
                    assert(done + Seq::<NodeView>::empty() =~= done);
                }
            }
            k += 1;
        }
        proof {
            assert(all.subrange(0, groups.len() as int) =~= all);
        }
        Ok(out)
    }
}

} // verus!
