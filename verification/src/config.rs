//! The configuration.

use crate::dnswatch::DEFAULT_LOG;
use crate::names::{lemma_views, lookup, views, Entries, NameMap};
use crate::oui::DEFAULT_DB;
use crate::text::{eq, owned};
use crate::util::{setting_bool, setting_num, setting_text, uci_bool, uci_get_or, uci_num};
use vstd::prelude::*;

verus! {

/// The configuration.
pub struct Cfg {
    pub enabled: bool,
    pub dns_source: String,
    pub dns_log: String,
    pub singbox_log: String,
    pub dnstap_socket: String,
    pub dns_log_max_kb: u64,
    pub mdns: bool,
    pub sniff: bool,
    pub conns: bool,
    /// The active port probe, which is off unless it is asked for.
    pub port_probe: bool,
    pub ssdp: bool,
    pub keep_unmatched: bool,
    pub db: String,
    pub rules: String,
    pub oui_db: String,
    pub persist_interval: u64,
    pub refresh_interval: u64,
    pub offline_after: u64,
    pub max_age: u64,
    /// After how many seconds evidence weighs half; 0 switches fading off.
    pub evidence_halflife: u64,
}

/// The configuration, in mathematical values.
pub struct CfgView {
    pub enabled: bool,
    pub dns_source: Seq<char>,
    pub dns_log: Seq<char>,
    pub singbox_log: Seq<char>,
    pub dnstap_socket: Seq<char>,
    pub dns_log_max_kb: u64,
    pub mdns: bool,
    pub sniff: bool,
    pub conns: bool,
    pub port_probe: bool,
    pub ssdp: bool,
    pub keep_unmatched: bool,
    pub db: Seq<char>,
    pub rules: Seq<char>,
    pub oui_db: Seq<char>,
    pub persist_interval: u64,
    pub refresh_interval: u64,
    pub offline_after: u64,
    pub max_age: u64,
    pub evidence_halflife: u64,
}

impl View for Cfg {
    type V = CfgView;

    open spec fn view(&self) -> CfgView {
        CfgView {
            enabled: self.enabled,
            dns_source: self.dns_source@,
            dns_log: self.dns_log@,
            singbox_log: self.singbox_log@,
            dnstap_socket: self.dnstap_socket@,
            dns_log_max_kb: self.dns_log_max_kb,
            mdns: self.mdns,
            sniff: self.sniff,
            conns: self.conns,
            port_probe: self.port_probe,
            ssdp: self.ssdp,
            keep_unmatched: self.keep_unmatched,
            db: self.db@,
            rules: self.rules@,
            oui_db: self.oui_db@,
            persist_interval: self.persist_interval,
            refresh_interval: self.refresh_interval,
            offline_after: self.offline_after,
            max_age: self.max_age,
            evidence_halflife: self.evidence_halflife,
        }
    }
}

/// What was printed for a setting; nothing where it was not asked for.
pub open spec fn printed(m: Entries<Seq<char>>, key: Seq<char>) -> Seq<char> {
    match lookup(m, key) {
        Some(s) => s,
        None => Seq::empty(),
    }
}

/// The configuration that the printed settings give.
pub open spec fn configured(m: Entries<Seq<char>>) -> CfgView {
    CfgView {
        enabled: setting_bool(printed(m, "enabled"@), true),
        dns_source: setting_text(printed(m, "dns_source"@), "auto"@),
        dns_log: setting_text(printed(m, "dns_log"@), "/tmp/whohere-dns.log"@),
        singbox_log: setting_text(printed(m, "singbox_log"@), "/var/log/sing-box.log"@),
        dnstap_socket: setting_text(printed(m, "dnstap_socket"@), "/tmp/whohere-dnstap.sock"@),
        dns_log_max_kb: setting_num(printed(m, "dns_log_max_kb"@), 2048, 64),
        mdns: setting_bool(printed(m, "mdns"@), true),
        sniff: setting_bool(printed(m, "sniff"@), true),
        conns: setting_bool(printed(m, "conns"@), true),
        port_probe: setting_bool(printed(m, "port_probe"@), false),
        ssdp: setting_bool(printed(m, "ssdp"@), true),
        keep_unmatched: setting_bool(printed(m, "keep_unmatched"@), false),
        db: setting_text(printed(m, "db"@), "/etc/whohere/devices.json"@),
        rules: setting_text(printed(m, "rules"@), "/usr/share/whohere/rules.json"@),
        oui_db: setting_text(printed(m, "oui_db"@), "/usr/share/whohere/oui.txt"@),
        persist_interval: setting_num(printed(m, "persist_interval"@), 1800, 60),
        refresh_interval: setting_num(printed(m, "refresh_interval"@), 30, 5),
        offline_after: setting_num(printed(m, "offline_after"@), 600, 60),
        max_age: setting_num(printed(m, "max_age"@), 2592000, 3600),
        evidence_halflife: setting_num(printed(m, "evidence_halflife"@), 604800, 0),
    }
}

/// What was printed for a setting.
fn get<'a>(m: &'a NameMap<String>, key: &str) -> (r: &'a str)
    requires
        m.wf(),
    ensures
        r@ == printed(views(m@), key@),
{
    proof {
        lemma_views(m@, key@, arbitrary());
    }
    match m.get(key) {
        Some(s) => s.as_str(),
        None => {
            proof {
                reveal_strlit("");
                assert(""@ =~= Seq::<char>::empty());
            }
            ""
        },
    }
}

/// Makes the configuration of what was printed for each setting.
pub fn load_cfg(m: &NameMap<String>) -> (r: Cfg)
    requires
        m.wf(),
    ensures
        r@ == configured(views(m@)),
{
    Cfg {
        enabled: uci_bool(get(m, "enabled"), true),
        dns_source: uci_get_or(get(m, "dns_source"), "auto"),
        dns_log: uci_get_or(get(m, "dns_log"), DEFAULT_LOG),
        singbox_log: uci_get_or(get(m, "singbox_log"), "/var/log/sing-box.log"),
        dnstap_socket: uci_get_or(get(m, "dnstap_socket"), "/tmp/whohere-dnstap.sock"),
        dns_log_max_kb: uci_num(get(m, "dns_log_max_kb"), 2048, 64),
        mdns: uci_bool(get(m, "mdns"), true),
        sniff: uci_bool(get(m, "sniff"), true),
        conns: uci_bool(get(m, "conns"), true),
        port_probe: uci_bool(get(m, "port_probe"), false),
        ssdp: uci_bool(get(m, "ssdp"), true),
        keep_unmatched: uci_bool(get(m, "keep_unmatched"), false),
        db: uci_get_or(get(m, "db"), "/etc/whohere/devices.json"),
        rules: uci_get_or(get(m, "rules"), "/usr/share/whohere/rules.json"),
        oui_db: uci_get_or(get(m, "oui_db"), DEFAULT_DB),
        persist_interval: uci_num(get(m, "persist_interval"), 1800, 60),
        refresh_interval: uci_num(get(m, "refresh_interval"), 30, 5),
        offline_after: uci_num(get(m, "offline_after"), 600, 60),
        max_age: uci_num(get(m, "max_age"), 2592000, 3600),
        evidence_halflife: uci_num(get(m, "evidence_halflife"), 604800, 0),
    }
}

/// Where queries are taken from: the configured source or, left to itself, the log
/// of `dnsmasq` where it exists, else that of `sing-box` where it exists, else
/// the socket of `dnstap`.
pub open spec fn source_of(c: CfgView, dns_log: bool, singbox_log: bool) -> Seq<char> {
    if c.dns_source != "auto"@ {
        c.dns_source
    } else if dns_log {
        "dnsmasq_log"@
    } else if singbox_log {
        "singbox_log"@
    } else {
        "dnstap"@
    }
}

/// Decides where queries are taken from. The flags say which of the two logs
/// exist.
pub fn probe_source(c: &Cfg, dns_log: bool, singbox_log: bool) -> (r: String)
    ensures
        r@ == source_of(c@, dns_log, singbox_log),
{
    if !eq(c.dns_source.as_str(), "auto") {
        owned(c.dns_source.as_str())
    } else if dns_log {
        owned("dnsmasq_log")
    } else if singbox_log {
        owned("singbox_log")
    } else {
        owned("dnstap")
    }
}

/// Intervals never fall below their least value, whatever is configured.
pub proof fn law_intervals_have_a_floor(m: Entries<Seq<char>>)
    ensures
        configured(m).dns_log_max_kb >= 64,
        configured(m).persist_interval >= 60,
        configured(m).refresh_interval >= 5,
        configured(m).offline_after >= 60,
        configured(m).max_age >= 3600,
{
}

} // verus!
