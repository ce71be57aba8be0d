//! DHCP exchanges, as the hook in the DHCP server broadcasts them: JSON objects on
//! one line or on several.

use crate::event::{opt_event, Event, EventView};
use crate::json::{get_text, json_read, json_tree, member, member_of, member_text, read, Tree};
use crate::text::{append_str, chars, owned, text, trim, trimmed};
use crate::util::{mac_normal, norm_mac, opt_text};
use vstd::prelude::*;
use vstd::utf8::encode_utf8;

verus! {

/// Under which name the exchanges are broadcast.
pub const UBUS_EVENT: &'static str = "whohere.dhcp";

/// When this many bytes stand without an end, they are thrown away.
pub const MAX_OBJECT: usize = 65536;

/// How many braces of a text are open.
pub open spec fn depth(t: Seq<char>) -> int
    decreases t.len(),
{
    if t.len() == 0 {
        0
    } else if t.last() == '{' {
        depth(t.drop_last()) + 1
    } else if t.last() == '}' {
        depth(t.drop_last()) - 1
    } else {
        depth(t.drop_last())
    }
}

/// Puts the lines of an object together.
pub struct Splitter {
    /// What has been read of the object.
    pub acc: String,
}

/// The object that is complete with one more line, and what is kept. It is complete
/// where no brace is open.
pub open spec fn split_step(acc: Seq<char>, line: Seq<char>) -> (Option<Seq<char>>, Seq<char>) {
    let all = acc + line + seq!['\n'];
    if depth(all) <= 0 && trimmed(all).len() > 0 {
        (Some(trimmed(all)), Seq::empty())
    } else if encode_utf8(all).len() > MAX_OBJECT {
        (None, Seq::empty())
    } else {
        (None, all)
    }
}

/// Says whether some brace of a text is open.
fn is_open(t: &Vec<char>) -> (r: bool)
    ensures
        r == (depth(t@) > 0),
{
    let mut d: i128 = 0;
    let n = t.len();
    for i in 0..n
        invariant
            n == t@.len(),
            d == depth(t@.take(i as int)),
            -i <= d <= i,
    {
        assert(t@.take(i + 1).drop_last() =~= t@.take(i as int));
        if t[i] == '{' {
            d = d + 1;
        } else if t[i] == '}' {
            d = d - 1;
        }
    }
    assert(t@.take(n as int) =~= t@);
    d > 0
}

impl Splitter {
    /// Nothing read yet.
    pub fn new() -> (r: Splitter)
        ensures
            r.acc@.len() == 0,
    {
        Splitter { acc: String::new() }
    }

    /// Takes in a line, and gives the object that is complete with it.
    pub fn push_line(&mut self, line: &str) -> (r: Option<String>)
        ensures
            (opt_text(r), final(self).acc@) == split_step(old(self).acc@, line@),
    {
        append_str(&mut self.acc, line);
        self.acc.push('\n');
        assert(self.acc@ =~= old(self).acc@ + line@ + seq!['\n']);
        let c = chars(self.acc.as_str());
        let t = trim(c.as_slice());
        if !is_open(&c) && t.len() > 0 {
            self.acc = String::new();
            assert(self.acc@ =~= Seq::<char>::empty());
            return Some(text(t));
        }
        if self.acc.as_str().as_bytes().len() > MAX_OBJECT {
            self.acc = String::new();
            assert(self.acc@ =~= Seq::<char>::empty());
        }
        None
    }
}

/// The text of a member; empty where it has none.
pub open spec fn field(t: Tree, key: Seq<char>) -> Seq<char> {
    match member_text(t, key) {
        Some(s) => s,
        None => Seq::empty(),
    }
}

/// The exchange with the fields given; `None` where the hardware address is none.
pub open spec fn exchange(
    mac: Seq<char>,
    ip: Seq<char>,
    host: Seq<char>,
    vendor: Seq<char>,
    opts: Seq<char>,
) -> Option<EventView> {
    match mac_normal(mac) {
        Some(mac) => Some(EventView::Dhcp { mac, ip, host, vendor, opts }),
        None => None,
    }
}

/// Makes an exchange of its fields.
pub fn make_exchange(mac: &str, ip: String, host: String, vendor: String, opts: String) -> (r:
    Option<Event>)
    ensures
        opt_event(r) == exchange(mac@, ip@, host@, vendor@, opts@),
{
    match norm_mac(mac) {
        Some(mac) => Some(Event::Dhcp { mac, ip, host, vendor, opts }),
        None => None,
    }
}

/// The exchange in a broadcast object.
pub open spec fn exchange_in(t: Option<Tree>) -> Option<EventView> {
    match t {
        Some(t) => match member_of(t, UBUS_EVENT@) {
            Some(o) => exchange(
                field(o, "mac"@),
                field(o, "ip"@),
                field(o, "host"@),
                field(o, "vendor"@),
                field(o, "opts"@),
            ),
            None => None,
        },
        None => None,
    }
}

/// Reads the text of a member.
fn read_field(v: &serde_json::Value, key: &str) -> (r: String)
    ensures
        r@ == field(json_tree(*v), key@),
{
    match get_text(v, key) {
        Some(s) => owned(s),
        None => {
            let r = String::new();
            assert(r@ =~= Seq::<char>::empty());
            r
        },
    }
}

/// Reads the exchange in a broadcast object.
pub fn handle(txt: &str) -> (r: Option<Event>)
    ensures
        opt_event(r) == exchange_in(json_read(txt@)),
{
    match read(txt) {
        Ok(v) => match member(&v, UBUS_EVENT) {
            Some(o) => {
                let mac = read_field(o, "mac");
                make_exchange(
                    mac.as_str(),
                    read_field(o, "ip"),
                    read_field(o, "host"),
                    read_field(o, "vendor"),
                    read_field(o, "opts"),
                )
            },
            None => None,
        },
        Err(_) => None,
    }
}

/// What is kept between lines never exceeds the limit.
pub proof fn law_splitter_is_bounded(acc: Seq<char>, line: Seq<char>)
    ensures
        encode_utf8(split_step(acc, line).1).len() <= MAX_OBJECT,
{
    assert(encode_utf8(Seq::<char>::empty()).len() == 0);
}

/// An object that is given is balanced, and nothing of it is kept.
pub proof fn law_split_object_is_balanced(acc: Seq<char>, line: Seq<char>)
    ensures
        split_step(acc, line).0 is Some ==> depth(acc + line + seq!['\n']) <= 0 && split_step(
            acc,
            line,
        ).1.len() == 0,
{
}

} // verus!
