//! HTTP-side decisions: the SOAP action a request names, the base URL of
//! media links, and the answers to event subscriptions.

use vstd::prelude::*;
use crate::format::{
    chars_eq, dec_digits, hex_pad, lemma_hex_pad_value, push_decimal, push_hex, trim, trim_str,
};
use crate::text::{chars_of, slice_chars, string_of};

verus! {

// ---------------------------------------------------------------------------
// SOAPACTION

/// `s` without its leading `"` characters.
pub open spec fn trim_quotes_start(s: Seq<char>) -> Seq<char>
    decreases s.len(),
{
    if s.len() > 0 && s[0] == '"' {
        trim_quotes_start(s.drop_first())
    } else {
        s
    }
}

/// `s` without its trailing `"` characters.
pub open spec fn trim_quotes_end(s: Seq<char>) -> Seq<char>
    decreases s.len(),
{
    if s.len() > 0 && s.last() == '"' {
        trim_quotes_end(s.drop_last())
    } else {
        s
    }
}

/// The part of `s` after its last `#`; all of `s` where it has none.
pub open spec fn after_last_hash(s: Seq<char>) -> Seq<char>
    decreases s.len(),
{
    if s.len() == 0 {
        s
    } else if s.last() == '#' {
        Seq::empty()
    } else {
        after_last_hash(s.drop_last()).push(s.last())
    }
}

/// The action named by a SOAPACTION header such as
/// `"urn:schemas-upnp-org:service:ContentDirectory:1#Browse"`: the value
/// trimmed of whitespace, then of quotes, then cut after its last `#`.
pub open spec fn action_name_text(header: Seq<char>) -> Seq<char> {
    after_last_hash(trim_quotes_end(trim_quotes_start(trim(header))))
}

/// The action name carried by the value of a SOAPACTION header.
pub fn soap_action_name(header: &str) -> (r: String)
    ensures
        r@ == action_name_text(header@),
{
    let t = trim_str(header);
    let mut a: usize = 0;
    assert(t@.skip(0) =~= t@);
    while a < t.len() && t[a] == '"'
        invariant
            a <= t.len(),
            trim_quotes_start(t@) == trim_quotes_start(t@.skip(a as int)),
        decreases t.len() - a,
    {
        assert(t@.skip(a as int).drop_first() =~= t@.skip(a + 1));
        a = a + 1;
    }
    let mut b: usize = t.len();
    assert(t@.skip(a as int) =~= t@.subrange(a as int, b as int));
    while b > a && t[b - 1] == '"'
        invariant
            a <= b <= t.len(),
            trim_quotes_end(trim_quotes_start(t@)) == trim_quotes_end(
                t@.subrange(a as int, b as int),
            ),
        decreases b,
    {
        assert(t@.subrange(a as int, b as int).drop_last() =~= t@.subrange(a as int, b - 1));
        b = b - 1;
    }
    let ghost q = t@.subrange(a as int, b as int);
    let mut k: usize = b;
    assert(t@.subrange(b as int, b as int) =~= Seq::<char>::empty());
    assert(q =~= t@.subrange(a as int, k as int));
    while k > a && t[k - 1] != '#'
        invariant
            a <= k <= b <= t.len(),
            q == t@.subrange(a as int, b as int),
            after_last_hash(q) == after_last_hash(t@.subrange(a as int, k as int)) + t@.subrange(
                k as int,
                b as int,
            ),
        decreases k,
    {
        let ghost head = t@.subrange(a as int, k as int);
        assert(head.drop_last() =~= t@.subrange(a as int, k - 1));
        assert(head.last() == t@[k - 1]);
        assert(after_last_hash(t@.subrange(a as int, k - 1)).push(t@[k - 1]) + t@.subrange(
            k as int,
            b as int,
        ) =~= after_last_hash(t@.subrange(a as int, k - 1)) + t@.subrange(k - 1, b as int));
        k = k - 1;
    }
    if k > a {
        let ghost head = t@.subrange(a as int, k as int);
        assert(head.last() == '#');
        assert(after_last_hash(head) =~= Seq::<char>::empty());
    } else {
        assert(t@.subrange(a as int, k as int) =~= Seq::<char>::empty());
    }
    assert(after_last_hash(q) =~= t@.subrange(k as int, b as int));
    string_of(&slice_chars(&t, k, b))
}

// ---------------------------------------------------------------------------
// Base URL of media links

/// The base URL taken from a request's `Host` header, when it has a
/// non-empty one.
pub open spec fn host_base_text(host: Option<Seq<char>>) -> Option<Seq<char>> {
    match host {
        Some(h) => if h.len() > 0 {
            Some("http://"@ + h)
        } else {
            None
        },
        None => None,
    }
}

pub fn host_base(host: Option<&str>) -> (r: Option<String>)
    ensures
        r.deep_view() == host_base_text(host.deep_view()),
{
    match host {
        Some(h) => {
            if h.unicode_len() > 0 {
                let mut s = String::new();
                s.append("http://");
                s.append(h);
                Some(s)
            } else {
                None
            }
        },
        None => None,
    }
}

/// The base URL without a `Host` header: the local address `ip` that
/// reaches the network, or the loopback address where none was found,
/// with the HTTP port.
pub open spec fn fallback_base_text(ip: Option<Seq<char>>, port: u16) -> Seq<char> {
    let host = match ip {
        Some(i) => i,
        None => "127.0.0.1"@,
    };
    "http://"@ + host + seq![':'] + dec_digits(port as nat)
}

pub fn fallback_base(ip: Option<&str>, port: u16) -> (r: String)
    ensures
        r@ == fallback_base_text(ip.deep_view(), port),
{
    let mut s = String::new();
    s.append("http://");
    match ip {
        Some(i) => s.append(i),
        None => s.append("127.0.0.1"),
    }
    crate::text::push_char(&mut s, ':');
    push_decimal(&mut s, port as u64);
    assert(s@ =~= fallback_base_text(ip.deep_view(), port));
    s
}

// ---------------------------------------------------------------------------
// Event subscriptions

pub const HTTP_OK: u16 = 200;

pub const HTTP_METHOD_NOT_ALLOWED: u16 = 405;

/// Lifetime announced for a subscription.
pub const SUBSCRIPTION_TIMEOUT: &'static str = "Second-1800";

/// The request methods of the event URLs.
pub enum EventMethod {
    Subscribe,
    Unsubscribe,
    Other,
}

impl EventMethod {
    /// The status answering the method: subscriptions are acknowledged
    /// (no event is ever sent), any other method is not allowed.
    pub open spec fn status_spec(&self) -> u16 {
        match self {
            EventMethod::Other => HTTP_METHOD_NOT_ALLOWED,
            _ => HTTP_OK,
        }
    }

    pub fn status(&self) -> (r: u16)
        ensures
            r == self.status_spec(),
    {
        match self {
            EventMethod::Other => HTTP_METHOD_NOT_ALLOWED,
            _ => HTTP_OK,
        }
    }
}

/// Which event method `method` names.
pub fn event_method(method: &str) -> (r: EventMethod)
    ensures
        r is Subscribe <==> method@ == "SUBSCRIBE"@,
        r is Unsubscribe <==> method@ == "UNSUBSCRIBE"@,
{
    let m = chars_of(method);
    let sub = chars_of("SUBSCRIBE");
    let unsub = chars_of("UNSUBSCRIBE");
    proof {
        reveal_strlit("SUBSCRIBE");
        reveal_strlit("UNSUBSCRIBE");
        assert("SUBSCRIBE"@.len() != "UNSUBSCRIBE"@.len());
    }
    if chars_eq(&m, &sub) {
        EventMethod::Subscribe
    } else if chars_eq(&m, &unsub) {
        EventMethod::Unsubscribe
    } else {
        EventMethod::Other
    }
}

/// The SID of the `n`-th subscription: `uuid:<uuid>-<n>`, `n` in
/// lower-case hexadecimal of at least four digits.
pub open spec fn subscription_id_text(uuid: Seq<char>, n: nat) -> Seq<char> {
    "uuid:"@ + uuid + seq!['-'] + hex_pad(n, 4)
}

pub fn subscription_id(uuid: &str, n: u64) -> (r: String)
    ensures
        r@ == subscription_id_text(uuid@, n as nat),
{
    let mut s = String::new();
    s.append("uuid:");
    s.append(uuid);
    crate::text::push_char(&mut s, '-');
    push_hex(&mut s, n, 4);
    assert(s@ =~= subscription_id_text(uuid@, n as nat));
    s
}

/// Distinct subscription numbers give distinct SIDs.
pub proof fn lemma_subscription_ids_distinct(uuid: Seq<char>, n1: nat, n2: nat)
    requires
        n1 != n2,
    ensures
        subscription_id_text(uuid, n1) != subscription_id_text(uuid, n2),
{
    let p = "uuid:"@ + uuid + seq!['-'];
    lemma_hex_pad_value(n1, 4);
    lemma_hex_pad_value(n2, 4);
    assert(subscription_id_text(uuid, n1).skip(p.len() as int) =~= hex_pad(n1, 4));
    assert(subscription_id_text(uuid, n2).skip(p.len() as int) =~= hex_pad(n2, 4));
}

} // verus!
