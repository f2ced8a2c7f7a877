//! Which ports of a container the proxy relays, read from what the container
//! runtime reports about it.

use crate::connection::{protocol_named, Protocol};
use crate::text::{parse_port, port_number, same_text, split_once_only, split_pair};
use itertools::Itertools;
use vstd::prelude::*;

verus! {

/// One port mapping of a container: traffic that reaches the proxy on
/// `private_port` is relayed to `public_port` on `127.0.0.1`.
#[derive(Clone, Copy, Debug, PartialEq, Eq, Structural)]
pub struct ProxyPort {
    pub public_port: u16,
    pub private_port: u16,
    pub protocol: Protocol,
}

/// A container and the ports to relay for it.
#[derive(Clone, Debug)]
pub struct ProxyableContainer {
    pub ports: Vec<ProxyPort>,
    pub id: String,
}

/// No two of the ports share a private port.
pub open spec fn distinct_private_ports(ports: Seq<ProxyPort>) -> bool {
    forall|a: int, b: int|
        0 <= a < b < ports.len() ==> (#[trigger] ports[a]).private_port != (
        #[trigger] ports[b]).private_port
}

/// Positions of the keys that occur for the first time: a position is kept
/// unless its key stands at an earlier position too. Ascending.
pub open spec fn first_occurrences(keys: Seq<u64>) -> Seq<usize>
    decreases keys.len(),
{
    if keys.len() == 0 {
        Seq::empty()
    } else {
        let earlier = keys.drop_last();
        if earlier.contains(keys.last()) {
            first_occurrences(earlier)
        } else {
            first_occurrences(earlier).push(earlier.len() as usize)
        }
    }
}

/// What `first_occurrences` keeps: positions inside the sequence, in ascending
/// order, exactly those whose key does not occur earlier.
pub proof fn lemma_first_occurrences(keys: Seq<u64>)
    requires
        keys.len() <= usize::MAX,
    ensures
        first_occurrences(keys).len() <= keys.len(),
        forall|k: int|
            0 <= k < first_occurrences(keys).len() ==> (#[trigger] first_occurrences(keys)[k])
                < keys.len(),
        forall|a: int, b: int|
            0 <= a < b < first_occurrences(keys).len() ==> (#[trigger] first_occurrences(keys)[a])
                < (#[trigger] first_occurrences(keys)[b]),
        forall|i: int|
            0 <= i < keys.len() ==> (first_occurrences(keys).contains(i as usize)
                <==> !keys.subrange(0, i).contains(#[trigger] keys[i])),
    decreases keys.len(),
{
    let kept = first_occurrences(keys);
    if keys.len() > 0 {
        let earlier = keys.drop_last();
        let before = first_occurrences(earlier);
        let last = earlier.len() as int;
        lemma_first_occurrences(earlier);
        assert(keys.subrange(0, last) =~= earlier);
        assert forall|i: int| 0 <= i < keys.len() implies (kept.contains(i as usize)
            <==> !keys.subrange(0, i).contains(#[trigger] keys[i])) by {
            if i < last {
                assert(keys.subrange(0, i) =~= earlier.subrange(0, i));
                assert(keys[i] == earlier[i]);
                if before.contains(i as usize) {
                    let k = choose|k: int| 0 <= k < before.len() && before[k] == i as usize;
                    assert(kept[k] == i as usize);
                }
                if kept.contains(i as usize) {
                    let k = choose|k: int| 0 <= k < kept.len() && kept[k] == i as usize;
                    assert(k < before.len());
                    assert(before[k] == i as usize);
                }
            } else {
                if !earlier.contains(keys.last()) {
                    assert(kept[kept.len() - 1] == last as usize);
                }
                if kept.contains(i as usize) {
                    let k = choose|k: int| 0 <= k < kept.len() && kept[k] == i as usize;
                    if k < before.len() {
                        assert(before[k] < last);
                    }
                }
            }
        }
    }
}

/// The items at the given positions.
pub open spec fn pick<T>(items: Seq<T>, positions: Seq<usize>) -> Seq<T> {
    Seq::new(positions.len(), |k: int| items[positions[k] as int])
}

/// The positions at which a key occurs for the first time, in ascending
/// order. This is `Itertools::unique_by` on the keys, each paired with its
/// position by `enumerate`: the adaptor yields an item when its key is met
/// for the first time and skips it otherwise, in the order of the input.
#[verifier::external_body]
fn unique_positions(keys: &Vec<u64>) -> (kept: Vec<usize>)
    ensures
        kept@ == first_occurrences(keys@),
{
    keys.iter().enumerate().unique_by(|entry| *entry.1).map(|entry| entry.0).collect()
}

/// One port of a container as the runtime's container listing reports it.
#[derive(Clone, Debug)]
pub struct ListedPort {
    pub private_port: u64,
    pub public_port: Option<u64>,
    pub typ: String,
}

/// A container as the runtime's container listing reports it.
#[derive(Clone, Debug)]
pub struct ListedContainer {
    pub id: String,
    pub ports: Vec<ListedPort>,
}

/// The mapping that a listed port stands for. A port that is not published,
/// whose protocol is neither `tcp` nor `udp`, or whose numbers do not fit in
/// 16 bits stands for none.
pub open spec fn listed_proxy_port(port: ListedPort) -> Option<ProxyPort> {
    match (port.public_port, protocol_named(port.typ@)) {
        (Some(public_port), Some(protocol)) => if public_port <= u16::MAX && port.private_port
            <= u16::MAX {
            Some(
                ProxyPort {
                    public_port: public_port as u16,
                    private_port: port.private_port as u16,
                    protocol,
                },
            )
        } else {
            None
        },
        _ => None,
    }
}

/// The private ports of a listing, in its order.
pub open spec fn listed_keys(ports: Seq<ListedPort>) -> Seq<u64> {
    Seq::new(ports.len(), |i: int| ports[i].private_port)
}

/// The mappings that the given listed ports stand for, in their order.
pub open spec fn listed_mappings(ports: Seq<ListedPort>) -> Seq<ProxyPort>
    decreases ports.len(),
{
    if ports.len() == 0 {
        Seq::empty()
    } else {
        match listed_proxy_port(ports.last()) {
            Some(port) => listed_mappings(ports.drop_last()).push(port),
            None => listed_mappings(ports.drop_last()),
        }
    }
}

/// The ports to relay for a listed container. Of the listed ports with one
/// private port only the first counts, whether or not it stands for a
/// mapping; of those that count, each that stands for a mapping gives it.
pub open spec fn listed_proxy_ports(ports: Seq<ListedPort>) -> Seq<ProxyPort> {
    listed_mappings(pick(ports, first_occurrences(listed_keys(ports))))
}

/// The mappings of listed ports with distinct private ports have distinct
/// private ports too.
proof fn lemma_listed_mappings(ports: Seq<ListedPort>)
    requires
        forall|a: int, b: int|
            0 <= a < b < ports.len() ==> (#[trigger] ports[a]).private_port != (
            #[trigger] ports[b]).private_port,
    ensures
        distinct_private_ports(listed_mappings(ports)),
        forall|k: int|
            0 <= k < listed_mappings(ports).len() ==> exists|i: int|
                0 <= i < ports.len() && listed_proxy_port(ports[i]) == Some(
                    #[trigger] listed_mappings(ports)[k],
                ),
    decreases ports.len(),
{
    if ports.len() > 0 {
        let init = ports.drop_last();
        lemma_listed_mappings(init);
        let out = listed_mappings(ports);
        let before = listed_mappings(init);
        assert forall|k: int| 0 <= k < out.len() implies exists|i: int|
            0 <= i < ports.len() && listed_proxy_port(ports[i]) == Some(#[trigger] out[k]) by {
            if k < before.len() {
                let i = choose|i: int|
                    0 <= i < init.len() && listed_proxy_port(init[i]) == Some(before[k]);
                assert(ports[i] == init[i]);
            } else {
                assert(listed_proxy_port(ports[ports.len() - 1]) == Some(out[k]));
            }
        }
        assert forall|a: int, b: int| 0 <= a < b < out.len() implies (#[trigger] out[a]).private_port
            != (#[trigger] out[b]).private_port by {
            if b == before.len() {
                let i = choose|i: int|
                    0 <= i < init.len() && listed_proxy_port(init[i]) == Some(before[a]);
                assert(ports[i].private_port != ports[ports.len() - 1].private_port);
            }
        }
    }
}

/// A mapping is among those of some listed ports exactly if one of the
/// ports stands for it.
proof fn lemma_listed_mappings_members(ports: Seq<ListedPort>, mapping: ProxyPort)
    ensures
        listed_mappings(ports).contains(mapping) <==> exists|i: int|
            0 <= i < ports.len() && listed_proxy_port(#[trigger] ports[i]) == Some(mapping),
    decreases ports.len(),
{
    let out = listed_mappings(ports);
    if ports.len() > 0 {
        let init = ports.drop_last();
        let before = listed_mappings(init);
        let last = ports.len() - 1;
        lemma_listed_mappings_members(init, mapping);
        if out.contains(mapping) {
            let k = choose|k: int| 0 <= k < out.len() && out[k] == mapping;
            if k < before.len() {
                assert(before[k] == mapping);
                assert(before.contains(mapping));
                let i = choose|i: int|
                    0 <= i < init.len() && listed_proxy_port(#[trigger] init[i]) == Some(mapping);
                assert(listed_proxy_port(ports[i]) == Some(mapping));
            } else {
                assert(listed_proxy_port(ports[last]) == Some(mapping));
            }
        }
        if exists|i: int|
            0 <= i < ports.len() && listed_proxy_port(#[trigger] ports[i]) == Some(mapping) {
            let i = choose|i: int|
                0 <= i < ports.len() && listed_proxy_port(#[trigger] ports[i]) == Some(mapping);
            if i < last {
                assert(listed_proxy_port(init[i]) == Some(mapping));
                let k = choose|k: int| 0 <= k < before.len() && before[k] == mapping;
                assert(out[k] == mapping);
            } else {
                assert(out[out.len() - 1] == mapping);
            }
        }
    }
}

/// No earlier port of the listing has the private port of the one at `i`.
pub open spec fn is_first_listed(ports: Seq<ListedPort>, i: int) -> bool {
    forall|j: int| 0 <= j < i ==> (#[trigger] ports[j]).private_port != ports[i].private_port
}

/// A mapping is relayed for a listed container exactly if a listed port
/// stands for it and is the first with its private port.
pub proof fn lemma_listed_proxy_ports_members(ports: Seq<ListedPort>, mapping: ProxyPort)
    requires
        ports.len() <= usize::MAX,
    ensures
        listed_proxy_ports(ports).contains(mapping) <==> exists|i: int|
            0 <= i < ports.len() && is_first_listed(ports, i) && listed_proxy_port(
                #[trigger] ports[i],
            ) == Some(mapping),
{
    let keys = listed_keys(ports);
    let kept = first_occurrences(keys);
    let picked = pick(ports, kept);
    lemma_first_occurrences(keys);
    lemma_listed_mappings_members(picked, mapping);
    assert forall|i: int| 0 <= i < ports.len() implies (is_first_listed(ports, i)
        <==> !keys.subrange(0, i).contains(#[trigger] keys[i])) by {
        if keys.subrange(0, i).contains(keys[i]) {
            let j = choose|j: int| 0 <= j < i && keys.subrange(0, i)[j] == keys[i];
            assert(ports[j].private_port == ports[i].private_port);
        }
        if !is_first_listed(ports, i) {
            let j = choose|j: int|
                0 <= j < i && (#[trigger] ports[j]).private_port == ports[i].private_port;
            assert(keys.subrange(0, i)[j] == keys[i]);
        }
    }
    if listed_proxy_ports(ports).contains(mapping) {
        let k = choose|k: int|
            0 <= k < picked.len() && listed_proxy_port(#[trigger] picked[k]) == Some(mapping);
        let i = kept[k] as int;
        assert(kept.contains(i as usize));
        assert(keys[i] == ports[i].private_port);
        assert(is_first_listed(ports, i) && listed_proxy_port(ports[i]) == Some(mapping));
    }
    if exists|i: int|
        0 <= i < ports.len() && is_first_listed(ports, i) && listed_proxy_port(
            #[trigger] ports[i],
        ) == Some(mapping) {
        let i = choose|i: int|
            0 <= i < ports.len() && is_first_listed(ports, i) && listed_proxy_port(
                #[trigger] ports[i],
            ) == Some(mapping);
        assert(keys[i] == ports[i].private_port);
        assert(kept.contains(i as usize));
        let k = choose|k: int| 0 <= k < kept.len() && kept[k] == i as usize;
        assert(picked[k] == ports[i]);
        assert(listed_proxy_port(picked[k]) == Some(mapping));
    }
}

/// The ports to relay for a listed container never share a private port.
pub proof fn lemma_listed_proxy_ports_distinct(ports: Seq<ListedPort>)
    requires
        ports.len() <= usize::MAX,
    ensures
        distinct_private_ports(listed_proxy_ports(ports)),
{
    let keys = listed_keys(ports);
    let kept = first_occurrences(keys);
    let picked = pick(ports, kept);
    lemma_first_occurrences(keys);
    assert forall|a: int, b: int| 0 <= a < b < picked.len() implies (#[trigger] picked[a]).private_port
        != (#[trigger] picked[b]).private_port by {
        let i = kept[a] as int;
        let j = kept[b] as int;
        assert(kept.contains(j as usize));
        if keys[i] == keys[j] {
            assert(keys.subrange(0, j)[i] == keys[j]);
        }
    }
    lemma_listed_mappings(picked);
}

/// Reads one listed port.
fn to_proxy_port(port: &ListedPort) -> (mapping: Option<ProxyPort>)
    ensures
        mapping == listed_proxy_port(*port),
{
    let public_port: u64 = match port.public_port {
        Some(p) => p,
        None => {
            return None;
        },
    };
    let protocol = match Protocol::from_name(port.typ.as_str()) {
        Some(p) => p,
        None => {
            return None;
        },
    };
    if public_port > 65535 || port.private_port > 65535 {
        return None;
    }
    Some(
        ProxyPort {
            public_port: public_port as u16,
            private_port: port.private_port as u16,
            protocol,
        },
    )
}

/// The ports to relay for one listed container.
fn select_listed_ports(ports: &Vec<ListedPort>) -> (selected: Vec<ProxyPort>)
    ensures
        selected@ == listed_proxy_ports(ports@),
{
    let mut keys: Vec<u64> = Vec::new();
    let mut i: usize = 0;
    while i < ports.len()
        invariant
            i <= ports.len(),
            keys@ == listed_keys(ports@.subrange(0, i as int)),
        decreases ports.len() - i,
    {
        keys.push(ports[i].private_port);
        assert(keys@ =~= listed_keys(ports@.subrange(0, i + 1)));
        i += 1;
    }
    assert(ports@.subrange(0, i as int) =~= ports@);
    let kept = unique_positions(&keys);
    proof {
        assert(keys@.len() == keys.len());
        lemma_first_occurrences(keys@);
    }
    let ghost picked = pick(ports@, kept@);
    let mut selected: Vec<ProxyPort> = Vec::new();
    let mut k: usize = 0;
    while k < kept.len()
        invariant
            k <= kept.len(),
            picked == pick(ports@, kept@),
            forall|j: int| 0 <= j < kept@.len() ==> (#[trigger] kept@[j]) < ports@.len(),
            selected@ == listed_mappings(picked.subrange(0, k as int)),
        decreases kept.len() - k,
    {
        let port = &ports[kept[k]];
        assert(picked.subrange(0, k + 1).drop_last() =~= picked.subrange(0, k as int));
        assert(picked.subrange(0, k + 1).last() == *port);
        match to_proxy_port(port) {
            Some(mapping) => {
                selected.push(mapping);
            },
            None => {},
        }
        k += 1;
    }
    assert(picked.subrange(0, k as int) =~= picked);
    selected
}

/// The containers of a listing, each with the ports to relay for it, in the
/// order of the listing. A container keeps its place even if none of its
/// ports is relayed.
pub fn get_proxyable_containers(containers: Vec<ListedContainer>) -> (results: Vec<
    ProxyableContainer,
>)
    ensures
        results@.len() == containers@.len(),
        forall|i: int|
            0 <= i < containers@.len() ==> {
                &&& (#[trigger] results@[i]).id@ == containers@[i].id@
                &&& results@[i].ports@ == listed_proxy_ports(containers@[i].ports@)
                &&& distinct_private_ports(results@[i].ports@)
            },
{
    let mut results: Vec<ProxyableContainer> = Vec::new();
    let mut i: usize = 0;
    while i < containers.len()
        invariant
            i <= containers.len(),
            results@.len() == i,
            forall|j: int|
                0 <= j < i ==> {
                    &&& (#[trigger] results@[j]).id@ == containers@[j].id@
                    &&& results@[j].ports@ == listed_proxy_ports(containers@[j].ports@)
                    &&& distinct_private_ports(results@[j].ports@)
                },
        decreases containers.len() - i,
    {
        let container = &containers[i];
        let ports = select_listed_ports(&container.ports);
        proof {
            assert(container.ports@.len() == container.ports.len());
            lemma_listed_proxy_ports_distinct(container.ports@);
        }
        results.push(ProxyableContainer { id: container.id.clone(), ports });
        i += 1;
    }
    results
}

/// One host binding of a container port as the runtime's inspection reports
/// it: named text fields, in the order in which they were handed over.
#[derive(Clone, Debug)]
pub struct HostBinding {
    pub fields: Vec<(String, String)>,
}

/// The host bindings of one container port. The key names the container's
/// port and its protocol, as in `8080/tcp`.
#[derive(Clone, Debug)]
pub struct PortBindings {
    pub key: String,
    pub bindings: Vec<HostBinding>,
}

/// A container as the runtime's inspection reports it.
#[derive(Clone, Debug)]
pub struct InspectedContainer {
    pub id: String,
    pub port_bindings: Vec<PortBindings>,
}

/// The container port and protocol that the key of a port binding names:
/// a port number, one slash, and `tcp` or `udp`.
pub open spec fn port_key(key: Seq<char>) -> Option<(u16, Protocol)> {
    match split_pair(key, '/') {
        Some((number, name)) => match (port_number(number), protocol_named(name)) {
            (Some(private_port), Some(protocol)) => Some((private_port, protocol)),
            _ => None,
        },
        None => None,
    }
}

/// `i` is the position of the first field with the given name.
pub open spec fn is_first_named(fields: Seq<(String, String)>, name: Seq<char>, i: int) -> bool {
    &&& 0 <= i < fields.len()
    &&& fields[i].0@ == name
    &&& forall|j: int| 0 <= j < i ==> (#[trigger] fields[j]).0@ != name
}

/// The value of the first field with the given name.
pub open spec fn field_value(fields: Seq<(String, String)>, name: Seq<char>) -> Option<
    Seq<char>,
> {
    if exists|i: int| is_first_named(fields, name, i) {
        Some(fields[choose|i: int| is_first_named(fields, name, i)].1@)
    } else {
        None
    }
}

/// The host port of a binding: the port number in its `HostPort` field.
pub open spec fn host_port(binding: HostBinding) -> Option<u16> {
    match field_value(binding.fields@, "HostPort"@) {
        Some(value) => port_number(value),
        None => None,
    }
}

/// The mappings of one container port, one for each binding with a host
/// port, in the order of the bindings.
pub open spec fn binding_ports(
    private_port: u16,
    protocol: Protocol,
    bindings: Seq<HostBinding>,
) -> Seq<ProxyPort>
    decreases bindings.len(),
{
    if bindings.len() == 0 {
        Seq::empty()
    } else {
        let before = binding_ports(private_port, protocol, bindings.drop_last());
        match host_port(bindings.last()) {
            Some(public_port) => before.push(ProxyPort { public_port, private_port, protocol }),
            None => before,
        }
    }
}

/// The mappings of one entry of the port bindings; none if its key names no
/// port and protocol.
pub open spec fn entry_ports(entry: PortBindings) -> Seq<ProxyPort> {
    match port_key(entry.key@) {
        Some((private_port, protocol)) => binding_ports(private_port, protocol, entry.bindings@),
        None => Seq::empty(),
    }
}

/// The mappings of all entries, entry after entry.
pub open spec fn bound_ports(entries: Seq<PortBindings>) -> Seq<ProxyPort>
    decreases entries.len(),
{
    if entries.len() == 0 {
        Seq::empty()
    } else {
        bound_ports(entries.drop_last()) + entry_ports(entries.last())
    }
}

/// The private ports of the mappings, in their order.
pub open spec fn private_keys(ports: Seq<ProxyPort>) -> Seq<u64> {
    Seq::new(ports.len(), |i: int| ports[i].private_port as u64)
}

/// Of the mappings with one private port only the first.
pub open spec fn first_per_private_port(ports: Seq<ProxyPort>) -> Seq<ProxyPort> {
    pick(ports, first_occurrences(private_keys(ports)))
}

/// The ports to relay for an inspected container: the mappings of its port
/// bindings, of those with one private port the first.
pub open spec fn inspected_proxy_ports(entries: Seq<PortBindings>) -> Seq<ProxyPort> {
    first_per_private_port(bound_ports(entries))
}

/// A mapping is among those of one container port exactly if one of the
/// bindings names its host port.
proof fn lemma_binding_ports_members(
    private_port: u16,
    protocol: Protocol,
    bindings: Seq<HostBinding>,
    mapping: ProxyPort,
)
    ensures
        binding_ports(private_port, protocol, bindings).contains(mapping) <==> {
            &&& mapping.private_port == private_port
            &&& mapping.protocol == protocol
            &&& exists|b: int|
                0 <= b < bindings.len() && host_port(#[trigger] bindings[b]) == Some(
                    mapping.public_port,
                )
        },
    decreases bindings.len(),
{
    let out = binding_ports(private_port, protocol, bindings);
    if bindings.len() > 0 {
        let init = bindings.drop_last();
        let before = binding_ports(private_port, protocol, init);
        let last = bindings.len() - 1;
        lemma_binding_ports_members(private_port, protocol, init, mapping);
        if out.contains(mapping) {
            let k = choose|k: int| 0 <= k < out.len() && out[k] == mapping;
            if k < before.len() {
                assert(before[k] == mapping);
                assert(before.contains(mapping));
                let b = choose|b: int|
                    0 <= b < init.len() && host_port(#[trigger] init[b]) == Some(
                        mapping.public_port,
                    );
                assert(host_port(bindings[b]) == Some(mapping.public_port));
            } else {
                assert(host_port(bindings[last]) == Some(mapping.public_port));
            }
        }
        if mapping.private_port == private_port && mapping.protocol == protocol && exists|b: int|
            0 <= b < bindings.len() && host_port(#[trigger] bindings[b]) == Some(
                mapping.public_port,
            ) {
            let b = choose|b: int|
                0 <= b < bindings.len() && host_port(#[trigger] bindings[b]) == Some(
                    mapping.public_port,
                );
            if b < last {
                assert(host_port(init[b]) == Some(mapping.public_port));
                let k = choose|k: int| 0 <= k < before.len() && before[k] == mapping;
                assert(out[k] == mapping);
            } else {
                assert(out[out.len() - 1] == mapping);
            }
        }
    }
}

/// The entry at `e` binds the mapping: its key names the private port and
/// the protocol, and one of its bindings the public port.
pub open spec fn binds(entries: Seq<PortBindings>, e: int, mapping: ProxyPort) -> bool {
    &&& 0 <= e < entries.len()
    &&& port_key(entries[e].key@) == Some((mapping.private_port, mapping.protocol))
    &&& exists|b: int|
        0 <= b < entries[e].bindings@.len() && host_port(#[trigger] entries[e].bindings@[b])
            == Some(mapping.public_port)
}

/// A mapping is among those of the port bindings exactly if one of the
/// entries binds it.
pub proof fn lemma_bound_ports_members(entries: Seq<PortBindings>, mapping: ProxyPort)
    ensures
        bound_ports(entries).contains(mapping) <==> exists|e: int| binds(entries, e, mapping),
    decreases entries.len(),
{
    let out = bound_ports(entries);
    if entries.len() == 0 {
        assert(!exists|e: int| binds(entries, e, mapping));
    } else {
        let init = entries.drop_last();
        let before = bound_ports(init);
        let last = entries.len() - 1;
        let entry = entries[last];
        let tail = entry_ports(entry);
        lemma_bound_ports_members(init, mapping);
        match port_key(entry.key@) {
            Some((private_port, protocol)) => {
                lemma_binding_ports_members(private_port, protocol, entry.bindings@, mapping);
            },
            None => {},
        }
        assert(tail.contains(mapping) <==> binds(entries, last, mapping));
        if out.contains(mapping) {
            let k = choose|k: int| 0 <= k < out.len() && out[k] == mapping;
            if k < before.len() {
                assert(before[k] == mapping);
                assert(before.contains(mapping));
                let e = choose|e: int| binds(init, e, mapping);
                assert(init[e] == entries[e]);
                assert(binds(entries, e, mapping));
            } else {
                assert(tail[k - before.len()] == mapping);
                assert(tail.contains(mapping));
            }
        }
        if exists|e: int| binds(entries, e, mapping) {
            let e = choose|e: int| binds(entries, e, mapping);
            if e < last {
                assert(init[e] == entries[e]);
                assert(binds(init, e, mapping));
                let k = choose|k: int| 0 <= k < before.len() && before[k] == mapping;
                assert(out[k] == mapping);
            } else {
                let k = choose|k: int| 0 <= k < tail.len() && tail[k] == mapping;
                assert(out[before.len() + k] == mapping);
            }
        }
    }
}

/// What stays of a list of mappings never shares a private port, is taken
/// from the list, and holds every private port of the list.
pub proof fn lemma_first_per_private_port(ports: Seq<ProxyPort>)
    requires
        ports.len() <= usize::MAX,
    ensures
        distinct_private_ports(first_per_private_port(ports)),
        forall|k: int|
            0 <= k < first_per_private_port(ports).len() ==> ports.contains(
                #[trigger] first_per_private_port(ports)[k],
            ),
        forall|i: int|
            0 <= i < ports.len() ==> exists|k: int|
                0 <= k < first_per_private_port(ports).len() && first_per_private_port(
                    ports,
                )[k].private_port == (#[trigger] ports[i]).private_port,
{
    let keys = private_keys(ports);
    let kept = first_occurrences(keys);
    let out = first_per_private_port(ports);
    lemma_first_occurrences(keys);
    assert forall|a: int, b: int| 0 <= a < b < out.len() implies (#[trigger] out[a]).private_port
        != (#[trigger] out[b]).private_port by {
        let i = kept[a] as int;
        let j = kept[b] as int;
        assert(kept.contains(j as usize));
        if keys[i] == keys[j] {
            assert(keys.subrange(0, j)[i] == keys[j]);
        }
    }
    assert forall|k: int| 0 <= k < out.len() implies ports.contains(#[trigger] out[k]) by {
        assert(ports[kept[k] as int] == out[k]);
    }
    assert forall|i: int| 0 <= i < ports.len() implies exists|k: int|
        0 <= k < out.len() && out[k].private_port == (#[trigger] ports[i]).private_port by {
        lemma_key_has_first(keys, i);
        let f = choose|f: int|
            0 <= f <= i && keys[f] == keys[i] && !keys.subrange(0, f).contains(keys[f]);
        assert(kept.contains(f as usize));
        let k = choose|k: int| 0 <= k < kept.len() && kept[k] == f as usize;
        assert(out[k] == ports[f]);
    }
}

/// Every key has a first occurrence at or before any of its positions.
proof fn lemma_key_has_first(keys: Seq<u64>, i: int)
    requires
        0 <= i < keys.len(),
    ensures
        exists|f: int| 0 <= f <= i && keys[f] == keys[i] && !keys.subrange(0, f).contains(keys[f]),
    decreases i,
{
    if keys.subrange(0, i).contains(keys[i]) {
        let j = choose|j: int| 0 <= j < i && keys.subrange(0, i)[j] == keys[i];
        lemma_key_has_first(keys, j);
        let f = choose|f: int|
            0 <= f <= j && keys[f] == keys[j] && !keys.subrange(0, f).contains(keys[f]);
        assert(0 <= f <= i && keys[f] == keys[i] && !keys.subrange(0, f).contains(keys[f]));
    } else {
        assert(0 <= i <= i && keys[i] == keys[i] && !keys.subrange(0, i).contains(keys[i]));
    }
}

/// Reads the key of a port binding.
pub fn parse_port_key(key: &str) -> (parsed: Option<(u16, Protocol)>)
    ensures
        parsed == port_key(key@),
{
    match split_once_only(key, '/') {
        Some((number, name)) => match parse_port(number) {
            Some(private_port) => match Protocol::from_name(name) {
                Some(protocol) => Some((private_port, protocol)),
                None => None,
            },
            None => None,
        },
        None => None,
    }
}

/// Looks up the first field with the given name.
fn find_field<'a>(fields: &'a Vec<(String, String)>, name: &str) -> (value: Option<&'a String>)
    ensures
        match value {
            Some(text) => field_value(fields@, name@) == Some(text@),
            None => field_value(fields@, name@) is None,
        },
{
    let mut i: usize = 0;
    while i < fields.len()
        invariant
            i <= fields.len(),
            forall|j: int| 0 <= j < i ==> (#[trigger] fields@[j]).0@ != name@,
        decreases fields.len() - i,
    {
        if same_text(fields[i].0.as_str(), name) {
            assert(is_first_named(fields@, name@, i as int));
            return Some(&fields[i].1);
        }
        i += 1;
    }
    assert(forall|k: int| !is_first_named(fields@, name@, k));
    None
}

/// Reads the host port of a binding.
fn parse_host_port(binding: &HostBinding) -> (port: Option<u16>)
    ensures
        port == host_port(*binding),
{
    match find_field(&binding.fields, "HostPort") {
        Some(value) => parse_port(value.as_str()),
        None => None,
    }
}

/// The first of the mappings with each private port, in their order.
fn unique_by_private_port(ports: &Vec<ProxyPort>) -> (kept_ports: Vec<ProxyPort>)
    ensures
        kept_ports@ == first_per_private_port(ports@),
{
    let mut keys: Vec<u64> = Vec::new();
    let mut i: usize = 0;
    while i < ports.len()
        invariant
            i <= ports.len(),
            keys@ == private_keys(ports@.subrange(0, i as int)),
        decreases ports.len() - i,
    {
        keys.push(ports[i].private_port as u64);
        assert(keys@ =~= private_keys(ports@.subrange(0, i + 1)));
        i += 1;
    }
    assert(ports@.subrange(0, i as int) =~= ports@);
    let kept = unique_positions(&keys);
    proof {
        assert(keys@.len() == keys.len());
        lemma_first_occurrences(keys@);
    }
    let mut kept_ports: Vec<ProxyPort> = Vec::new();
    let mut k: usize = 0;
    while k < kept.len()
        invariant
            k <= kept.len(),
            forall|j: int| 0 <= j < kept@.len() ==> (#[trigger] kept@[j]) < ports@.len(),
            kept_ports@ == pick(ports@, kept@.subrange(0, k as int)),
        decreases kept.len() - k,
    {
        kept_ports.push(ports[kept[k]]);
        assert(kept_ports@ =~= pick(ports@, kept@.subrange(0, k + 1)));
        k += 1;
    }
    assert(kept@.subrange(0, k as int) =~= kept@);
    kept_ports
}

/// The ports to relay for an inspected container. Entries and bindings are
/// read in the order in which they were handed over; where several mappings
/// share a private port, the first one wins.
pub fn get_proxyable_information(details: InspectedContainer) -> (container: ProxyableContainer)
    ensures
        container.id@ == details.id@,
        container.ports@ == inspected_proxy_ports(details.port_bindings@),
        distinct_private_ports(container.ports@),
{
    let mut ports: Vec<ProxyPort> = Vec::new();
    let entries = &details.port_bindings;
    let mut e: usize = 0;
    while e < entries.len()
        invariant
            e <= entries.len(),
            ports@ == bound_ports(entries@.subrange(0, e as int)),
        decreases entries.len() - e,
    {
        let entry = &entries[e];
        let ghost before = ports@;
        proof {
            assert(entries@.subrange(0, e + 1).drop_last() =~= entries@.subrange(0, e as int));
            assert(entries@.subrange(0, e + 1).last() == *entry);
        }
        match parse_port_key(entry.key.as_str()) {
            Some((private_port, protocol)) => {
                let mut b: usize = 0;
                while b < entry.bindings.len()
                    invariant
                        b <= entry.bindings.len(),
                        ports@ == before + binding_ports(
                            private_port,
                            protocol,
                            entry.bindings@.subrange(0, b as int),
                        ),
                    decreases entry.bindings.len() - b,
                {
                    let binding = &entry.bindings[b];
                    proof {
                        assert(entry.bindings@.subrange(0, b + 1).drop_last()
                            =~= entry.bindings@.subrange(0, b as int));
                        assert(entry.bindings@.subrange(0, b + 1).last() == *binding);
                    }
                    match parse_host_port(binding) {
                        Some(public_port) => {
                            ports.push(ProxyPort { public_port, private_port, protocol });
                        },
                        None => {},
                    }
                    assert(ports@ =~= before + binding_ports(
                        private_port,
                        protocol,
                        entry.bindings@.subrange(0, b + 1),
                    ));
                    b += 1;
                }
                assert(entry.bindings@.subrange(0, b as int) =~= entry.bindings@);
            },
            None => {
                assert(ports@ =~= before + entry_ports(*entry));
            },
        }
        e += 1;
    }
    assert(entries@.subrange(0, e as int) =~= entries@);
    let unique = unique_by_private_port(&ports);
    proof {
        assert(ports@.len() == ports.len());
        lemma_first_per_private_port(ports@);
    }
    ProxyableContainer { id: details.id.clone(), ports: unique }
}

} // verus!
