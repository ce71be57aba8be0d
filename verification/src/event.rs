//! What the collectors report about the devices of the network.

use crate::text::texts;
use vstd::prelude::*;

verus! {

/// Something that a collector saw.
pub enum Event {
    /// A DNS query: who asked for which name, with which query type, from which
    /// source port.
    Dns { ip: String, domain: String, qtype: String, sport: u16 },
    /// A DHCP exchange.
    Dhcp { mac: String, ip: String, host: String, vendor: String, opts: String },
    /// A multicast announcement.
    Mdns { ip: String, name: String, model: String, services: Vec<String> },
    /// The fingerprint of a TCP stack, taken from a connection request.
    TcpFp { ip: String, fp: String },
    /// A host that a device connects to; `via` says how that was learnt:
    /// `sni`, `http` or `mqtt`.
    Conn { ip: String, host: String, ua: String, via: &'static str },
    /// The far end of a long connection.
    Peer { ip: String, proto: String, remote: String, port: u16 },
    /// The outcome of a port probe.
    Ports { ip: String, open: Vec<u16>, banner: String },
    /// The server line of a discovery answer.
    Ssdp { ip: String, server: String },
    /// A collector's own state, as a machine readable code and its argument.
    SourceInfo { kind: &'static str, state: &'static str, info: String },
}

/// An event with its strings as texts.
pub enum EventView {
    Dns { ip: Seq<char>, domain: Seq<char>, qtype: Seq<char>, sport: u16 },
    Dhcp { mac: Seq<char>, ip: Seq<char>, host: Seq<char>, vendor: Seq<char>, opts: Seq<char> },
    Mdns { ip: Seq<char>, name: Seq<char>, model: Seq<char>, services: Seq<Seq<char>> },
    TcpFp { ip: Seq<char>, fp: Seq<char> },
    Conn { ip: Seq<char>, host: Seq<char>, ua: Seq<char>, via: Seq<char> },
    Peer { ip: Seq<char>, proto: Seq<char>, remote: Seq<char>, port: u16 },
    Ports { ip: Seq<char>, open: Seq<u16>, banner: Seq<char> },
    Ssdp { ip: Seq<char>, server: Seq<char> },
    SourceInfo { kind: Seq<char>, state: Seq<char>, info: Seq<char> },
}

impl View for Event {
    type V = EventView;

    open spec fn view(&self) -> EventView {
        match *self {
            Event::Dns { ip, domain, qtype, sport } => EventView::Dns {
                ip: ip@,
                domain: domain@,
                qtype: qtype@,
                sport,
            },
            Event::Dhcp { mac, ip, host, vendor, opts } => EventView::Dhcp {
                mac: mac@,
                ip: ip@,
                host: host@,
                vendor: vendor@,
                opts: opts@,
            },
            Event::Mdns { ip, name, model, services } => EventView::Mdns {
                ip: ip@,
                name: name@,
                model: model@,
                services: texts(services@),
            },
            Event::TcpFp { ip, fp } => EventView::TcpFp { ip: ip@, fp: fp@ },
            Event::Conn { ip, host, ua, via } => EventView::Conn {
                ip: ip@,
                host: host@,
                ua: ua@,
                via: via@,
            },
            Event::Peer { ip, proto, remote, port } => EventView::Peer {
                ip: ip@,
                proto: proto@,
                remote: remote@,
                port,
            },
            Event::Ports { ip, open, banner } => EventView::Ports {
                ip: ip@,
                open: open@,
                banner: banner@,
            },
            Event::Ssdp { ip, server } => EventView::Ssdp { ip: ip@, server: server@ },
            Event::SourceInfo { kind, state, info } => EventView::SourceInfo {
                kind: kind@,
                state: state@,
                info: info@,
            },
        }
    }
}

/// The view of an event that may be missing.
pub open spec fn opt_event(e: Option<Event>) -> Option<EventView> {
    match e {
        Some(e) => Some(e@),
        None => None,
    }
}

/// The views of a list of events.
pub open spec fn event_views(v: Seq<Event>) -> Seq<EventView> {
    v.map_values(|e: Event| e@)
}

} // verus!
