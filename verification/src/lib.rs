//! Who is on a network, and what these devices are.
//!
//! The collectors read packets ([`sniff`], [`bpf`]), queries ([`dnswatch`],
//! [`dnstap`], [`dnsmsg`]), announcements ([`discover`]), DHCP exchanges ([`dhcpev`]),
//! the connection table ([`conns`]), the answers to a port probe ([`portprobe`]) and
//! the neighbour tables of the router ([`clients`]), and report [`event::Event`]s.
//! [`daemon`] and [`live`] bring what they report into the devices of the [`store`].
//! [`rules`] finds what fits, and [`score`] draws conclusions from it. [`laws`] states
//! what all of this is for.
//!
//! Nothing here reads a file, a socket or the clock: what was read comes in as text
//! or bytes, the time as seconds, and what is to be written goes out the same way.
//! Weights are single precision numbers; they are added outside, and come in as
//! integers that order as they do.

pub mod bpf;
pub mod clients;
pub mod config;
pub mod conns;
pub mod daemon;
pub mod dhcpev;
pub mod discover;
pub mod dnsmsg;
pub mod dnstap;
pub mod dnswatch;
pub mod event;
pub mod json;
pub mod laws;
pub mod live;
pub mod names;
pub mod num;
pub mod oui;
pub mod portprobe;
pub mod rules;
pub mod score;
pub mod sniff;
pub mod store;
pub mod tail;
pub mod text;
pub mod util;
pub mod wire;
