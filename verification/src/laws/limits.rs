//! The limits that are kept, and the texts that are sent or looked for.

use crate::conns::{MIN_PACKETS, MIN_PAUSE};
use crate::daemon::{LAST_MAX, RULES_INTERVAL, SERVICES_MAX, UNMATCHED_MAX};
use crate::dhcpev::{MAX_OBJECT, UBUS_EVENT};
use crate::discover::{ASK_AGAIN, M_SEARCH};
use crate::dnsmsg::MAX_HOPS;
use crate::dnstap::MAX_FRAME;
use crate::dnswatch::{DEFAULT_LOG, REQUESTS_MAX};
use crate::live::ADDRESS_MAX;
use crate::oui::DEFAULT_DB;
use crate::portprobe::WORKERS;
use crate::score::{CONFIDENCE_MAX, EVIDENCE_MAX};
use crate::sniff::HTTP_SCAN;
use crate::store::{DECAY_DROP, DECAY_MUTE, IDENTIFIED_FROM, PORT_RING};
use crate::tail::MAX_LINE;
use vstd::prelude::*;

verus! {

/// How much is kept at most.
pub proof fn law_what_is_kept_is_bounded()
    ensures
        LAST_MAX == 512,
        UNMATCHED_MAX == 50,
        SERVICES_MAX == 24,
        REQUESTS_MAX == 4096,
        ADDRESS_MAX == 4,
        PORT_RING == 16,
        EVIDENCE_MAX == 20,
        MAX_OBJECT == 64 * 1024,
        MAX_FRAME == 1024 * 1024,
        MAX_LINE == 8 * 1024,
        HTTP_SCAN == 2 * 1024,
        MAX_HOPS == 16,
        WORKERS == 32,
{
}

/// How long is waited: half a minute between two looks at the connections, a minute between
/// two at the rules, and half an hour, in nanoseconds, between two questions to everyone.
pub proof fn law_how_long_is_waited()
    ensures
        MIN_PAUSE == 30,
        RULES_INTERVAL == 60,
        ASK_AGAIN == 30 * 60 * 1_000_000_000,
{
}

/// What is enough: twenty packets make a connection, half of all certainty a conclusion, and
/// there is never full certainty. A hit is mute below the binary form of 0.15 and goes below
/// that of 0.05.
pub proof fn law_what_is_enough()
    ensures
        MIN_PACKETS == 20,
        IDENTIFIED_FROM == 50,
        CONFIDENCE_MAX == 99,
        DECAY_MUTE == 0x3e19_999a,
        DECAY_DROP == 0x3d4c_cccd,
{
}

/// The texts that are sent, looked for, or name a file.
pub proof fn law_fixed_texts()
    ensures
        UBUS_EVENT@ == "whohere.dhcp"@,
        M_SEARCH@
            == "M-SEARCH * HTTP/1.1\r\nHOST: 239.255.255.250:1900\r\nMAN: \"ssdp:discover\"\r\nMX: 2\r\nST: ssdp:all\r\n\r\n"@,
        DEFAULT_LOG@ == "/tmp/whohere-dns.log"@,
        DEFAULT_DB@ == "/usr/share/whohere/oui.txt"@,
{
}

} // verus!
