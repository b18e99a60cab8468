//! The listening address: an IPv4 address and a 16-bit port, validated once
//! from the command line arguments.

use vstd::prelude::*;
use vstd::string::StrSliceExecFns;
use vstd::utf8::encode_utf8;

verus! {

/// `b` is an ASCII decimal digit.
pub open spec fn is_digit(b: u8) -> bool {
    48 <= b <= 57
}

/// Every byte of `s` is a decimal digit.
pub open spec fn all_digits(s: Seq<u8>) -> bool {
    forall|i: int| 0 <= i < s.len() ==> is_digit(#[trigger] s[i])
}

/// The number that the decimal digits `s` spell, most significant first.
pub open spec fn decimal_value(s: Seq<u8>) -> nat
    decreases s.len(),
{
    if s.len() == 0 {
        0
    } else {
        decimal_value(s.drop_last()) * 10 + (s.last() - 48) as nat
    }
}

/// The text of a port without its optional leading `+`.
pub open spec fn port_digits(s: Seq<u8>) -> Seq<u8> {
    if s.len() > 0 && s[0] == 43 {
        s.drop_first()
    } else {
        s
    }
}

/// `s` is a port number: an optional `+`, then at least one decimal digit,
/// with a value that fits in 16 bits (leading zeros are allowed).
pub open spec fn valid_port(s: Seq<u8>) -> bool {
    let d = port_digits(s);
    d.len() > 0 && all_digits(d) && decimal_value(d) <= 65535
}

/// The value of a valid port text.
pub open spec fn port_value(s: Seq<u8>) -> nat {
    decimal_value(port_digits(s))
}

/// The dot-separated parts of `s`, read from left to right; a text without a
/// dot is one part.
pub open spec fn split_dots(s: Seq<u8>) -> Seq<Seq<u8>>
    decreases s.len(),
{
    if s.len() == 0 {
        seq![Seq::empty()]
    } else {
        let p = split_dots(s.drop_last());
        if s.last() == 46 {
            p.push(Seq::empty())
        } else {
            p.update(p.len() - 1, p.last().push(s.last()))
        }
    }
}

/// `p` is one octet of a dotted-quad address: one to three digits, no leading
/// zero unless the octet is `0` itself, and a value of at most 255.
pub open spec fn valid_octet(p: Seq<u8>) -> bool {
    &&& 1 <= p.len() <= 3
    &&& all_digits(p)
    &&& !(p.len() > 1 && p[0] == 48)
    &&& decimal_value(p) <= 255
}

/// `s` is an IPv4 address in dotted-quad notation.
pub open spec fn valid_ipv4(s: Seq<u8>) -> bool {
    let p = split_dots(s);
    p.len() == 4 && forall|k: int| 0 <= k < 4 ==> valid_octet(#[trigger] p[k])
}

/// The four octets of a valid dotted-quad address, in order.
pub open spec fn ipv4_octets(s: Seq<u8>) -> Seq<u8> {
    split_dots(s).map_values(|p: Seq<u8>| decimal_value(p) as u8)
}

/// Reads the octet `s[start..end]`, or `None` where it is no valid octet.
fn parse_octet(s: &[u8], start: usize, end: usize) -> (r: Option<u8>)
    requires
        start <= end <= s@.len(),
    ensures
        r is Some <==> valid_octet(s@.subrange(start as int, end as int)),
        r matches Some(v) ==> v as nat == decimal_value(s@.subrange(start as int, end as int)),
{
    let ghost p = s@.subrange(start as int, end as int);
    let n = end - start;
    if n < 1 || n > 3 {
        return None;
    }
    if n > 1 && s[start] == 48 {
        return None;
    }
    let mut value: u32 = 0;
    let mut i: usize = start;
    while i < end
        invariant
            start <= i <= end <= s@.len(),
            end - start <= 3,
            p == s@.subrange(start as int, end as int),
            all_digits(p.subrange(0, i - start)),
            value as nat == decimal_value(p.subrange(0, i - start)),
            value < 1000,
        decreases end - i,
    {
        let c = s[i];
        if c < 48 || c > 57 {
            assert(!all_digits(p)) by {
                assert(p[i - start] == c);
            }
            return None;
        }
        proof {
            let q = p.subrange(0, i - start + 1);
            assert(q.drop_last() =~= p.subrange(0, i - start));
            assert(q.last() == c);
            assert(decimal_value(p.subrange(0, i - start)) < 100) by {
                lemma_decimal_bound(p.subrange(0, i - start));
            }
        }
        value = value * 10 + (c - 48) as u32;
        i = i + 1;
    }
    assert(p.subrange(0, n as int) =~= p);
    if value > 255 {
        return None;
    }
    Some(value as u8)
}

/// A value spelled by at most `k` digits is below `10^k` (for `k` up to 2).
proof fn lemma_decimal_bound(s: Seq<u8>)
    requires
        s.len() <= 2,
        all_digits(s),
    ensures
        s.len() <= 1 ==> decimal_value(s) < 10,
        decimal_value(s) < 100,
    decreases s.len(),
{
    if s.len() > 0 {
        let t = s.drop_last();
        assert(all_digits(t)) by {
            assert forall|i: int| 0 <= i < t.len() implies is_digit(#[trigger] t[i]) by {
                assert(t[i] == s[i]);
            }
        }
        assert(is_digit(s[s.len() - 1]));
        lemma_decimal_bound(t);
    }
}


/// Reads a dotted-quad IPv4 address, or `None` where `s` is none.
pub fn parse_ipv4(s: &[u8]) -> (r: Option<[u8; 4]>)
    ensures
        r is Some <==> valid_ipv4(s@),
        r matches Some(a) ==> a@ == ipv4_octets(s@),
{
    let mut octets: Vec<u8> = Vec::new();
    let mut ok = true;
    let mut ndots: usize = 0;
    let mut start: usize = 0;
    let mut i: usize = 0;
    assert(s@.subrange(0, 0) =~= Seq::<u8>::empty());
    while i < s.len()
        invariant
            i <= s@.len(),
            start <= i,
            ndots <= i,
            split_dots(s@.subrange(0, i as int)).len() == ndots + 1,
            split_dots(s@.subrange(0, i as int))[ndots as int] == s@.subrange(start as int, i as int),
            ok <==> forall|k: int|
                0 <= k < ndots ==> valid_octet(#[trigger] split_dots(s@.subrange(0, i as int))[k]),
            ok ==> octets@.len() == ndots,
            ok ==> forall|k: int|
                0 <= k < ndots ==> (#[trigger] octets@[k]) as nat == decimal_value(
                    split_dots(s@.subrange(0, i as int))[k],
                ),
        decreases s@.len() - i,
    {
        let ghost p = split_dots(s@.subrange(0, i as int));
        let ghost q = s@.subrange(0, i + 1);
        assert(q.drop_last() =~= s@.subrange(0, i as int));
        assert(q.last() == s@[i as int]);
        if s[i] == 46 {
            let part = parse_octet(s, start, i);
            let ghost ok0 = ok;
            match part {
                Some(v) => {
                    if ok {
                        octets.push(v);
                    }
                },
                None => {
                    ok = false;
                },
            }
            proof {
                let p2 = split_dots(q);
                assert(p2 == p.push(Seq::empty()));
                assert forall|k: int| 0 <= k < ndots + 1 implies #[trigger] p2[k] == p[k] by {}
                if ok {
                    assert(ok0);
                    assert forall|k: int| 0 <= k < ndots + 1 implies valid_octet(#[trigger] p2[k]) by {
                        if k < ndots {
                            assert(p2[k] == p[k]);
                        }
                    }
                    assert forall|k: int|
                        0 <= k < ndots + 1 implies (#[trigger] octets@[k]) as nat == decimal_value(
                        p2[k],
                    ) by {
                        if k < ndots {
                            assert(p2[k] == p[k]);
                        }
                    }
                } else {
                    if ok0 {
                        assert(!valid_octet(p2[ndots as int]));
                    } else {
                        let w = choose|k: int| 0 <= k < ndots && !valid_octet(#[trigger] p[k]);
                        assert(p2[w] == p[w]);
                    }
                }
                assert(s@.subrange(i + 1, i + 1) =~= Seq::<u8>::empty());
            }
            ndots = ndots + 1;
            start = i + 1;
        } else {
            proof {
                let p2 = split_dots(q);
                assert(p2 == p.update(ndots as int, p[ndots as int].push(s@[i as int])));
                assert(s@.subrange(start as int, i + 1) =~= s@.subrange(start as int, i as int).push(
                    s@[i as int],
                ));
                assert forall|k: int| 0 <= k < ndots implies #[trigger] p2[k] == p[k] by {}
                if !ok {
                    let w = choose|k: int| 0 <= k < ndots && !valid_octet(#[trigger] p[k]);
                    assert(p2[w] == p[w]);
                }
            }
        }
        i = i + 1;
    }
    assert(s@.subrange(0, s@.len() as int) =~= s@);
    if ndots != 3 || !ok {
        return None;
    }
    let last = parse_octet(s, start, s.len());
    match last {
        None => None,
        Some(v) => {
            let a = [octets[0], octets[1], octets[2], v];
            assert(a@ =~= ipv4_octets(s@));
            Some(a)
        },
    }
}

/// Why a port text was refused: it was empty, it held something other than a
/// digit, or its value went past 65535; whichever a left-to-right reading
/// meets first.
#[derive(Debug, Clone, Copy, PartialEq, Eq, Structural)]
pub enum PortError {
    Empty,
    InvalidDigit,
    TooLarge,
}

impl PortError {
    /// The sentence that describes this error.
    pub fn message(&self) -> (r: String)
        ensures
            r@ == port_error_message(*self)@,
    {
        match self {
            PortError::Empty => "cannot parse integer from empty string".to_string(),
            PortError::InvalidDigit => "invalid digit found in string".to_string(),
            PortError::TooLarge => "number too large to fit in target type".to_string(),
        }
    }
}

/// The sentence that describes a port error.
pub open spec fn port_error_message(e: PortError) -> &'static str {
    match e {
        PortError::Empty => "cannot parse integer from empty string",
        PortError::InvalidDigit => "invalid digit found in string",
        PortError::TooLarge => "number too large to fit in target type",
    }
}

/// Reads the digits `d[i..]` after the value `v` of `d[..i]`, from left to
/// right, and gives the first fault met: a byte that is no digit, or a value
/// past 65535.
pub open spec fn port_scan(d: Seq<u8>, i: nat, v: nat) -> Option<PortError>
    decreases d.len() - i,
{
    if i >= d.len() {
        None
    } else if !is_digit(d[i as int]) {
        Some(PortError::InvalidDigit)
    } else if v * 10 + (d[i as int] - 48) > 65535 {
        Some(PortError::TooLarge)
    } else {
        port_scan(d, i + 1, v * 10 + (d[i as int] - 48) as nat)
    }
}

/// The error that reading the port text `s` meets, if any.
pub open spec fn port_error(s: Seq<u8>) -> Option<PortError> {
    if s.len() == 0 {
        Some(PortError::Empty)
    } else if port_digits(s).len() == 0 {
        Some(PortError::InvalidDigit)
    } else {
        port_scan(port_digits(s), 0, 0)
    }
}

/// Digits only grow a value: a digit-only text is worth at least any of its
/// prefixes.
proof fn lemma_decimal_prefix(s: Seq<u8>, k: int)
    requires
        0 <= k <= s.len(),
        all_digits(s),
    ensures
        decimal_value(s.subrange(0, k)) <= decimal_value(s),
    decreases s.len(),
{
    if k < s.len() {
        let t = s.drop_last();
        assert(all_digits(t)) by {
            assert forall|i: int| 0 <= i < t.len() implies is_digit(#[trigger] t[i]) by {
                assert(t[i] == s[i]);
            }
        }
        assert(t.subrange(0, k) =~= s.subrange(0, k));
        lemma_decimal_prefix(t, k);
    } else {
        assert(s.subrange(0, k) =~= s);
    }
}

/// Reads a port number: an optional `+` and decimal digits, at most 65535.
pub fn parse_port(s: &[u8]) -> (r: Result<u16, PortError>)
    ensures
        r is Ok <==> valid_port(s@),
        r matches Ok(v) ==> v as nat == port_value(s@),
        r matches Err(e) ==> port_error(s@) == Some(e),
{
    if s.len() == 0 {
        return Err(PortError::Empty);
    }
    let start: usize = if s[0] == 43 { 1 } else { 0 };
    let ghost d = port_digits(s@);
    assert(d =~= s@.subrange(start as int, s@.len() as int));
    if start == s.len() {
        return Err(PortError::InvalidDigit);
    }
    let mut value: u32 = 0;
    let mut i: usize = start;
    assert(d.subrange(0, 0) =~= Seq::<u8>::empty());
    while i < s.len()
        invariant
            start <= i <= s@.len(),
            d =~= s@.subrange(start as int, s@.len() as int),
            d == port_digits(s@),
            s@.len() > 0,
            all_digits(d.subrange(0, i - start)),
            value as nat == decimal_value(d.subrange(0, i - start)),
            value <= 65535,
            port_scan(d, 0, 0) == port_scan(d, (i - start) as nat, value as nat),
        decreases s@.len() - i,
    {
        let c = s[i];
        let ghost j = (i - start) as int;
        assert(d[j] == c);
        if c < 48 || c > 57 {
            assert(!is_digit(d[j]));
            assert(!all_digits(d));
            assert(port_scan(d, j as nat, value as nat) == Some(PortError::InvalidDigit));
            return Err(PortError::InvalidDigit);
        }
        let ghost q = d.subrange(0, j + 1);
        assert(q.drop_last() =~= d.subrange(0, j));
        assert(q.last() == c);
        assert(all_digits(q)) by {
            assert forall|k: int| 0 <= k < q.len() implies is_digit(#[trigger] q[k]) by {
                if k < j {
                    assert(q[k] == d.subrange(0, j)[k]);
                }
            }
        }
        let next = value * 10 + (c - 48) as u32;
        if next > 65535 {
            proof {
                if all_digits(d) {
                    lemma_decimal_prefix(d, j + 1);
                }
            }
            return Err(PortError::TooLarge);
        }
        value = next;
        i = i + 1;
    }
    assert(d.subrange(0, d.len() as int) =~= d);
    Ok(value as u16)
}


/// A validated listening address: an IPv4 address, as its four octets, and a
/// port.
#[derive(Debug, Clone, Copy, PartialEq, Eq)]
pub struct ServerAddr {
    pub addr: [u8; 4],
    pub port: u16,
}

/// The bytes of an argument, as UTF-8.
pub open spec fn arg_bytes(a: String) -> Seq<u8> {
    encode_utf8(a@)
}

/// The message for a wrong number of arguments.
pub open spec fn arg_count_message() -> Seq<char> {
    "not enough arguments"@
}

/// The message for an argument that is no IPv4 address.
pub open spec fn addr_message() -> Seq<char> {
    "parse addr failed due to invalid IPv4 address syntax"@
}

/// The message for an argument that is no port.
pub open spec fn port_message(e: PortError) -> Seq<char> {
    "parse port failed due to "@ + port_error_message(e)@
}

/// What reading the arguments `[program, address, port]` gives: the address,
/// or the message of the first thing found wrong.
pub open spec fn server_addr_of(args: Seq<String>) -> Result<(Seq<u8>, u16), Seq<char>> {
    if args.len() != 3 {
        Err(arg_count_message())
    } else if !valid_ipv4(arg_bytes(args[1])) {
        Err(addr_message())
    } else if !valid_port(arg_bytes(args[2])) {
        Err(port_message(port_error(arg_bytes(args[2]))->0))
    } else {
        Ok((ipv4_octets(arg_bytes(args[1])), port_value(arg_bytes(args[2])) as u16))
    }
}

impl ServerAddr {
    /// Reads the address from the arguments `[program, address, port]`. The
    /// address is a dotted-quad IPv4 address, the port a decimal number of at
    /// most 65535; otherwise the error says what was wrong.
    pub fn new(args: &[String]) -> (r: Result<ServerAddr, String>)
        ensures
            r is Ok <==> server_addr_of(args@) is Ok,
            r matches Ok(a) ==> server_addr_of(args@) == Ok::<(Seq<u8>, u16), Seq<char>>(
                (a.addr@, a.port),
            ),
            r matches Err(e) ==> server_addr_of(args@) == Err::<(Seq<u8>, u16), Seq<char>>(e@),
    {
        if args.len() != 3 {
            return Err("not enough arguments".to_string());
        }
        let addr = parse_ipv4(args[1].as_str().as_bytes());
        let addr = match addr {
            Some(a) => a,
            None => {
                return Err("parse addr failed due to invalid IPv4 address syntax".to_string());
            },
        };
        let port = parse_port(args[2].as_str().as_bytes());
        match port {
            Ok(p) => Ok(ServerAddr { addr, port: p }),
            Err(e) => {
                let reason = e.message();
                let msg = "parse port failed due to ".to_string();
                Err(msg.concat(reason.as_str()))
            },
        }
    }
}

} // verus!
