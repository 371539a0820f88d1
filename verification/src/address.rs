//! Listening addresses: the textual grammar, its parser, and the canonical
//! display form.
//!
//! Four textual forms are accepted, dispatched on the first character:
//! `a.b.c.d:port` (IPv4), `[groups]:port` (IPv6, with an optional `::` run
//! of zero groups), `:port` (IPv4 on the unspecified address), and
//! `unix:path` (a filesystem socket).

use crate::digits::{
    all_dec_digits, all_hex_digits, dec_digits, dec_val, hex_digits, hex_val, is_dec_digit,
};
use crate::scan::{find_first, split_double, split_on};
use vstd::prelude::*;

verus! {

/// An IPv4 socket endpoint: four address octets and a port.
#[derive(Clone, Debug)]
pub struct Ipv4Endpoint {
    pub a: u8,
    pub b: u8,
    pub c: u8,
    pub d: u8,
    pub port: u16,
}

/// An IPv6 socket endpoint: eight 16-bit address groups and a port.
#[derive(Clone, Debug)]
pub struct Ipv6Endpoint {
    pub groups: Vec<u16>,
    pub port: u16,
}

/// A listening address for one transport.
#[derive(Clone, Debug)]
pub enum SocketAddress {
    IPV4(Ipv4Endpoint),
    IPV6(Ipv6Endpoint),
    UnixDomainSocket(String),
}

/// The mathematical model of a listening address.
pub enum AddressModel {
    V4 { a: u8, b: u8, c: u8, d: u8, port: u16 },
    V6 { groups: Seq<u16>, port: u16 },
    Unix { path: Seq<char> },
}

impl AddressModel {
    /// Well-formed: an IPv6 address has exactly eight groups, and a
    /// filesystem-socket path is never empty.
    pub open spec fn wf(self) -> bool {
        match self {
            AddressModel::V4 { .. } => true,
            AddressModel::V6 { groups, .. } => groups.len() == 8,
            AddressModel::Unix { path } => path.len() > 0,
        }
    }
}

impl View for SocketAddress {
    type V = AddressModel;

    open spec fn view(&self) -> AddressModel {
        match self {
            SocketAddress::IPV4(e) => AddressModel::V4 {
                a: e.a,
                b: e.b,
                c: e.c,
                d: e.d,
                port: e.port,
            },
            SocketAddress::IPV6(e) => AddressModel::V6 { groups: e.groups@, port: e.port },
            SocketAddress::UnixDomainSocket(p) => AddressModel::Unix { path: p@ },
        }
    }
}

impl SocketAddress {
    /// Well-formed: the model of this address is.
    pub open spec fn wf(self) -> bool {
        self@.wf()
    }
}

/// The error of a malformed address string; it carries no further detail.
#[derive(Clone, Copy, PartialEq, Eq, Debug)]
pub struct AddrParseError;

impl AddrParseError {
    /// The one diagnostic this error carries.
    pub fn message(&self) -> (r: &'static str)
        ensures
            r@ == "invalid Socket address syntax"@,
    {
        "invalid Socket address syntax"
    }
}

/// A valid port numeral: one to five digits denoting at most 65535.
pub open spec fn is_port_text(s: Seq<char>) -> bool {
    &&& 1 <= s.len() <= 5
    &&& all_dec_digits(s)
    &&& dec_val(s) <= 65535
}

/// A valid IPv4 octet numeral: one to three digits denoting at most 255.
pub open spec fn is_octet_text(s: Seq<char>) -> bool {
    &&& 1 <= s.len() <= 3
    &&& all_dec_digits(s)
    &&& dec_val(s) <= 255
}

/// A valid IPv6 group numeral: one to four hexadecimal digits.
pub open spec fn is_group_text(s: Seq<char>) -> bool {
    &&& 1 <= s.len() <= 4
    &&& all_hex_digits(s)
}

/// Reads `host:port` as an IPv4 endpoint.
pub open spec fn parse_v4_text(s: Seq<char>) -> Option<AddressModel> {
    let parts = split_on(s, ':');
    if parts.len() == 2 && is_port_text(parts[1]) {
        let segs = split_on(parts[0], '.');
        if segs.len() == 4 && is_octet_text(segs[0]) && is_octet_text(segs[1]) && is_octet_text(
            segs[2],
        ) && is_octet_text(segs[3]) {
            Some(
                AddressModel::V4 {
                    a: dec_val(segs[0]) as u8,
                    b: dec_val(segs[1]) as u8,
                    c: dec_val(segs[2]) as u8,
                    d: dec_val(segs[3]) as u8,
                    port: dec_val(parts[1]) as u16,
                },
            )
        } else {
            None
        }
    } else {
        None
    }
}

/// Reads a (possibly empty) colon-separated list of IPv6 groups.
pub open spec fn parse_group_run(s: Seq<char>) -> Option<Seq<u16>> {
    if s.len() == 0 {
        Some(Seq::<u16>::empty())
    } else {
        let parts = split_on(s, ':');
        if forall|i: int| 0 <= i < parts.len() ==> is_group_text(#[trigger] parts[i]) {
            Some(parts.map_values(|p: Seq<char>| hex_val(p) as u16))
        } else {
            None
        }
    }
}

/// Reads the bracket-free part of an IPv6 literal as its eight groups; a
/// single `::` stands for the missing run of zero groups.
pub open spec fn parse_v6_groups(inner: Seq<char>) -> Option<Seq<u16>> {
    match split_double(inner, ':') {
        None => match parse_group_run(inner) {
            Some(gs) => if gs.len() == 8 {
                Some(gs)
            } else {
                None
            },
            None => None,
        },
        Some(pair) => match (parse_group_run(pair.0), parse_group_run(pair.1)) {
            (Some(l), Some(r)) => if l.len() + r.len() <= 7 {
                Some(l + Seq::new((8 - l.len() - r.len()) as nat, |i: int| 0u16) + r)
            } else {
                None
            },
            _ => None,
        },
    }
}

/// Reads `[groups]:port` as an IPv6 endpoint.
pub open spec fn parse_v6_text(s: Seq<char>) -> Option<AddressModel> {
    if s.len() == 0 || s.first() != '[' {
        None
    } else {
        let t = s.drop_first();
        let j = find_first(t, ']');
        if j < 0 {
            None
        } else {
            let inner = t.take(j);
            let rest = t.skip(j + 1);
            if rest.len() >= 2 && rest.first() == ':' && is_port_text(rest.drop_first()) {
                match parse_v6_groups(inner) {
                    Some(gs) => Some(
                        AddressModel::V6 { groups: gs, port: dec_val(rest.drop_first()) as u16 },
                    ),
                    None => None,
                }
            } else {
                None
            }
        }
    }
}

/// The grammar of address strings: what each address string denotes, or
/// `None` for a string in no valid form.
pub open spec fn parse_address(s: Seq<char>) -> Option<AddressModel> {
    if s.len() == 0 {
        None
    } else if s.first() == '[' {
        parse_v6_text(s)
    } else if is_dec_digit(s.first()) {
        parse_v4_text(s)
    } else if s.first() == ':' {
        if is_port_text(s.drop_first()) {
            Some(
                AddressModel::V4 {
                    a: 0,
                    b: 0,
                    c: 0,
                    d: 0,
                    port: dec_val(s.drop_first()) as u16,
                },
            )
        } else {
            None
        }
    } else if s.len() > 5 && s.take(5) == "unix:"@ {
        Some(AddressModel::Unix { path: s.skip(5) })
    } else {
        None
    }
}

/// The canonical text of a run of IPv6 groups: lower-case hexadecimal
/// numerals separated by single colons, never compressed.
pub open spec fn display_groups(groups: Seq<u16>) -> Seq<char>
    decreases groups.len(),
{
    if groups.len() == 0 {
        Seq::<char>::empty()
    } else if groups.len() == 1 {
        hex_digits(groups[0] as int)
    } else {
        hex_digits(groups.first() as int) + seq![':'] + display_groups(groups.drop_first())
    }
}

/// The canonical text of an address: the form its parse came from, except
/// that a bare `:port` renders as `0.0.0.0:port`.
pub open spec fn display_address(m: AddressModel) -> Seq<char> {
    match m {
        AddressModel::V4 { a, b, c, d, port } => dec_digits(a as int) + seq!['.'] + dec_digits(
            b as int,
        ) + seq!['.'] + dec_digits(c as int) + seq!['.'] + dec_digits(d as int) + seq![':']
            + dec_digits(port as int),
        AddressModel::V6 { groups, port } => seq!['['] + display_groups(groups) + seq![']'] + seq![
            ':',
        ] + dec_digits(port as int),
        AddressModel::Unix { path } => "unix:"@ + path,
    }
}

/// A successful read of the bracket-free part of an IPv6 literal always
/// yields exactly eight groups.
pub proof fn lemma_parse_v6_groups_len(inner: Seq<char>)
    ensures
        parse_v6_groups(inner) matches Some(gs) ==> gs.len() == 8,
{
}

/// Reads a colon-separated run of groups, as `parse_group_run` does.
fn parse_group_run_str(s: &str) -> (r: Option<Vec<u16>>)
    ensures
        r matches Some(v) ==> parse_group_run(s@) == Some(v@),
        r is None ==> parse_group_run(s@) is None,
{
    if s.unicode_len() == 0 {
        let v: Vec<u16> = Vec::new();
        proof {
            assert(v@ =~= Seq::<u16>::empty());
        }
        return Some(v);
    }
    let parts = crate::scan::split_str(s, ':');
    let ghost ps = split_on(s@, ':');
    let mut v: Vec<u16> = Vec::new();
    let mut i: usize = 0;
    while i < parts.len()
        invariant
            i <= parts.len(),
            s@.len() > 0,
            ps == split_on(s@, ':'),
            parts@.map_values(|t: String| t@) == ps,
            forall|j: int| 0 <= j < i ==> is_group_text(#[trigger] ps[j]),
            v@.len() == i,
            forall|j: int| 0 <= j < i ==> v@[j] == hex_val(ps[j]) as u16,
        decreases parts.len() - i,
    {
        proof {
            assert(parts@.map_values(|t: String| t@)[i as int] == parts@[i as int]@);
        }
        match crate::digits::parse_hex_group(parts[i].as_str()) {
            Some(g) => {
                v.push(g);
            },
            None => {
                proof {
                    assert(ps.len() == parts@.len());
                    assert(!is_group_text(ps[i as int]));
                    assert(!(forall|j: int|
                        0 <= j < ps.len() ==> is_group_text(#[trigger] ps[j])));
                }
                return None;
            },
        }
        i = i + 1;
    }
    proof {
        assert(ps.len() == parts@.len());
        assert(v@ =~= ps.map_values(|p: Seq<char>| hex_val(p) as u16));
    }
    Some(v)
}

/// Reads the bracket-free part of an IPv6 literal, as `parse_v6_groups`
/// does; a returned vector always has eight groups.
fn parse_v6_groups_str(inner: &str) -> (r: Option<Vec<u16>>)
    ensures
        r matches Some(v) ==> parse_v6_groups(inner@) == Some(v@) && v@.len() == 8,
        r is None ==> parse_v6_groups(inner@) is None,
{
    let n = inner.unicode_len();
    match crate::scan::find_double_char(inner, ':') {
        None => match parse_group_run_str(inner) {
            Some(v) => {
                if v.len() == 8 {
                    Some(v)
                } else {
                    None
                }
            },
            None => None,
        },
        Some(i) => {
            let left = inner.substring_char(0, i);
            let right = inner.substring_char(i + 2, n);
            proof {
                assert(left@ =~= inner@.take(i as int));
                assert(right@ =~= inner@.skip(i as int + 2));
            }
            match parse_group_run_str(left) {
                None => None,
                Some(l) => match parse_group_run_str(right) {
                    None => None,
                    Some(rr) => {
                        if l.len() <= 7 && rr.len() <= 7 - l.len() {
                            let ghost lsp = l@;
                            let zeros: usize = 8 - l.len() - rr.len();
                            let mut v = l;
                            let mut k: usize = 0;
                            while k < zeros
                                invariant
                                    k <= zeros,
                                    v@ =~= lsp + Seq::new(k as nat, |x: int| 0u16),
                                decreases zeros - k,
                            {
                                v.push(0u16);
                                proof {
                                    assert(Seq::new((k + 1) as nat, |x: int| 0u16) =~= Seq::new(
                                        k as nat,
                                        |x: int| 0u16,
                                    ).push(0u16));
                                }
                                k = k + 1;
                            }
                            let ghost zsp = Seq::new(zeros as nat, |x: int| 0u16);
                            let mut k2: usize = 0;
                            while k2 < rr.len()
                                invariant
                                    k2 <= rr.len(),
                                    v@ =~= lsp + zsp + rr@.take(k2 as int),
                                decreases rr.len() - k2,
                            {
                                v.push(rr[k2]);
                                proof {
                                    assert(rr@.take(k2 as int + 1) =~= rr@.take(k2 as int).push(
                                        rr@[k2 as int],
                                    ));
                                }
                                k2 = k2 + 1;
                            }
                            proof {
                                assert(rr@.take(rr@.len() as int) =~= rr@);
                                assert(v@ =~= lsp + zsp + rr@);
                            }
                            Some(v)
                        } else {
                            None
                        }
                    },
                },
            }
        },
    }
}

/// The canonical text of the groups of `groups` from index `from` on.
fn groups_string(groups: &Vec<u16>, from: usize) -> (r: String)
    requires
        from < groups.len(),
    ensures
        r@ == display_groups(groups@.skip(from as int)),
    decreases groups.len() - from,
{
    let mut s = crate::digits::hex_string(groups[from]);
    if from + 1 < groups.len() {
        s.append(":");
        let rest = groups_string(groups, from + 1);
        s.append(rest.as_str());
        proof {
            reveal_strlit(":");
            let g = groups@.skip(from as int);
            assert(g.first() == groups@[from as int]);
            assert(g.drop_first() =~= groups@.skip(from as int + 1));
            assert(":"@ =~= seq![':']);
            assert(s@ =~= display_groups(g));
        }
    } else {
        proof {
            let g = groups@.skip(from as int);
            assert(g.len() == 1);
            assert(g[0] == groups@[from as int]);
        }
    }
    s
}

/// Reads `host:port` as an IPv4 address, as `parse_v4_text` does.
fn parse_v4(s: &str) -> (r: Result<SocketAddress, AddrParseError>)
    ensures
        r matches Ok(addr) ==> addr.wf() && parse_v4_text(s@) == Some(addr@),
        r is Err ==> parse_v4_text(s@) is None,
{
    proof {
        assert(crate::digits::pow10(0) == 1);
        assert(crate::digits::pow10(1) == 10);
        assert(crate::digits::pow10(2) == 100);
        assert(crate::digits::pow10(3) == 1000);
        assert(crate::digits::pow10(4) == 10000);
        assert(crate::digits::pow10(5) == 100000);
    }
    let parts = crate::scan::split_str(s, ':');
    let ghost ps = split_on(s@, ':');
    if parts.len() != 2 {
        return Err(AddrParseError);
    }
    proof {
        assert(parts@.map_values(|t: String| t@)[0] == parts@[0]@);
        assert(parts@.map_values(|t: String| t@)[1] == parts@[1]@);
    }
    let port = match crate::digits::parse_bounded_dec(parts[1].as_str(), 5, 65535) {
        Some(p) => p,
        None => {
            return Err(AddrParseError);
        },
    };
    let segs = crate::scan::split_str(parts[0].as_str(), '.');
    let ghost ss = split_on(ps[0], '.');
    if segs.len() != 4 {
        return Err(AddrParseError);
    }
    proof {
        assert(segs@.map_values(|t: String| t@)[0] == segs@[0]@);
        assert(segs@.map_values(|t: String| t@)[1] == segs@[1]@);
        assert(segs@.map_values(|t: String| t@)[2] == segs@[2]@);
        assert(segs@.map_values(|t: String| t@)[3] == segs@[3]@);
    }
    let a = match crate::digits::parse_bounded_dec(segs[0].as_str(), 3, 255) {
        Some(x) => x,
        None => {
            return Err(AddrParseError);
        },
    };
    let b = match crate::digits::parse_bounded_dec(segs[1].as_str(), 3, 255) {
        Some(x) => x,
        None => {
            return Err(AddrParseError);
        },
    };
    let c = match crate::digits::parse_bounded_dec(segs[2].as_str(), 3, 255) {
        Some(x) => x,
        None => {
            return Err(AddrParseError);
        },
    };
    let d = match crate::digits::parse_bounded_dec(segs[3].as_str(), 3, 255) {
        Some(x) => x,
        None => {
            return Err(AddrParseError);
        },
    };
    Ok(
        SocketAddress::IPV4(
            Ipv4Endpoint {
                a: a as u8,
                b: b as u8,
                c: c as u8,
                d: d as u8,
                port: port as u16,
            },
        ),
    )
}

/// Reads `[groups]:port` as an IPv6 address, as `parse_v6_text` does.
fn parse_v6(s: &str) -> (r: Result<SocketAddress, AddrParseError>)
    requires
        s@.len() > 0,
        s@.first() == '[',
    ensures
        r matches Ok(addr) ==> addr.wf() && parse_v6_text(s@) == Some(addr@),
        r is Err ==> parse_v6_text(s@) is None,
{
    proof {
        assert(crate::digits::pow10(0) == 1);
        assert(crate::digits::pow10(1) == 10);
        assert(crate::digits::pow10(2) == 100);
        assert(crate::digits::pow10(3) == 1000);
        assert(crate::digits::pow10(4) == 10000);
        assert(crate::digits::pow10(5) == 100000);
    }
    let n = s.unicode_len();
    let t = s.substring_char(1, n);
    proof {
        assert(t@ =~= s@.drop_first());
    }
    match crate::scan::find_char(t, ']') {
        None => Err(AddrParseError),
        Some(j) => {
            proof {
                crate::scan::lemma_find_first(t@, ']');
            }
            let tn = t.unicode_len();
            let inner = t.substring_char(0, j);
            let rest = t.substring_char(j + 1, tn);
            proof {
                assert(inner@ =~= t@.take(j as int));
                assert(rest@ =~= t@.skip(j as int + 1));
            }
            let rn = rest.unicode_len();
            if rn < 2 {
                return Err(AddrParseError);
            }
            if rest.get_char(0) != ':' {
                return Err(AddrParseError);
            }
            let portstr = rest.substring_char(1, rn);
            proof {
                assert(portstr@ =~= rest@.drop_first());
            }
            let port = match crate::digits::parse_bounded_dec(portstr, 5, 65535) {
                Some(p) => p,
                None => {
                    return Err(AddrParseError);
                },
            };
            match parse_v6_groups_str(inner) {
                Some(groups) => Ok(
                    SocketAddress::IPV6(Ipv6Endpoint { groups, port: port as u16 }),
                ),
                None => Err(AddrParseError),
            }
        },
    }
}

impl SocketAddress {
    /// Reads an address string in any of the four accepted forms; `Err`
    /// exactly when the string is in none of them.
    pub fn from_str(s: &str) -> (r: Result<SocketAddress, AddrParseError>)
        ensures
            r matches Ok(addr) ==> addr.wf() && parse_address(s@) == Some(addr@),
            r is Err ==> parse_address(s@) is None,
    {
        let n = s.unicode_len();
        if n == 0 {
            return Err(AddrParseError);
        }
        let c0 = s.get_char(0);
        if c0 == '[' {
            parse_v6(s)
        } else if c0 as u32 >= 48 && c0 as u32 <= 57 {
            parse_v4(s)
        } else if c0 == ':' {
            proof {
                assert(crate::digits::pow10(0) == 1);
                assert(crate::digits::pow10(1) == 10);
                assert(crate::digits::pow10(2) == 100);
                assert(crate::digits::pow10(3) == 1000);
                assert(crate::digits::pow10(4) == 10000);
                assert(crate::digits::pow10(5) == 100000);
            }
            let portstr = s.substring_char(1, n);
            proof {
                assert(portstr@ =~= s@.drop_first());
            }
            match crate::digits::parse_bounded_dec(portstr, 5, 65535) {
                Some(p) => Ok(
                    SocketAddress::IPV4(
                        Ipv4Endpoint { a: 0, b: 0, c: 0, d: 0, port: p as u16 },
                    ),
                ),
                None => Err(AddrParseError),
            }
        } else if n > 5 {
            if s.get_char(0) == 'u' && s.get_char(1) == 'n' && s.get_char(2) == 'i' && s.get_char(3)
                == 'x' && s.get_char(4) == ':' {
                proof {
                    reveal_strlit("unix:");
                    assert(s@.take(5) =~= "unix:"@);
                }
                let path = s.substring_char(5, n).to_owned();
                proof {
                    assert(path@ =~= s@.skip(5));
                }
                Ok(SocketAddress::UnixDomainSocket(path))
            } else {
                proof {
                    reveal_strlit("unix:");
                    assert(s@.take(5) != "unix:"@) by {
                        if s@.take(5) == "unix:"@ {
                            assert(s@.take(5)[0] == s@[0]);
                            assert(s@.take(5)[1] == s@[1]);
                            assert(s@.take(5)[2] == s@[2]);
                            assert(s@.take(5)[3] == s@[3]);
                            assert(s@.take(5)[4] == s@[4]);
                        }
                    }
                }
                Err(AddrParseError)
            }
        } else {
            Err(AddrParseError)
        }
    }

    /// The canonical display string of this address; parsing it gives this
    /// address back.
    pub fn to_display_string(&self) -> (r: String)
        requires
            self.wf(),
        ensures
            r@ == display_address(self@),
    {
        match self {
            SocketAddress::IPV4(e) => {
                let mut s = crate::digits::dec_string(e.a as u16);
                s.append(".");
                s.append(crate::digits::dec_string(e.b as u16).as_str());
                s.append(".");
                s.append(crate::digits::dec_string(e.c as u16).as_str());
                s.append(".");
                s.append(crate::digits::dec_string(e.d as u16).as_str());
                s.append(":");
                s.append(crate::digits::dec_string(e.port).as_str());
                proof {
                    reveal_strlit(".");
                    reveal_strlit(":");
                    assert("."@ =~= seq!['.']);
                    assert(":"@ =~= seq![':']);
                    assert(s@ =~= display_address(self@));
                }
                s
            },
            SocketAddress::IPV6(e) => {
                let mut s = String::from_str("[");
                let g = groups_string(&e.groups, 0);
                s.append(g.as_str());
                s.append("]:");
                s.append(crate::digits::dec_string(e.port).as_str());
                proof {
                    reveal_strlit("[");
                    reveal_strlit("]:");
                    assert("["@ =~= seq!['[']);
                    assert("]:"@ =~= seq![']'] + seq![':']);
                    assert(e.groups@.skip(0) =~= e.groups@);
                    assert(s@ =~= display_address(self@));
                }
                s
            },
            SocketAddress::UnixDomainSocket(p) => {
                let mut s = String::from_str("unix:");
                s.append(p.as_str());
                proof {
                    assert(s@ =~= display_address(self@));
                }
                s
            },
        }
    }
}

/// A port value's canonical numeral is valid port text denoting it.
proof fn lemma_port_text(n: int)
    requires
        0 <= n <= 65535,
    ensures
        is_port_text(dec_digits(n)),
        dec_val(dec_digits(n)) == n,
        !dec_digits(n).contains(':'),
{
    crate::digits::lemma_dec_digits_val(n);
    assert(crate::digits::pow10(0) == 1);
    assert(crate::digits::pow10(1) == 10);
    assert(crate::digits::pow10(2) == 100);
    assert(crate::digits::pow10(3) == 1000);
    assert(crate::digits::pow10(4) == 10000);
    assert(crate::digits::pow10(5) == 100000);
    crate::digits::lemma_dec_digits_len(n, 5);
    crate::digits::lemma_dec_digits_free_of(dec_digits(n), ':');
}

/// An octet value's canonical numeral is valid octet text denoting it.
proof fn lemma_octet_text(n: int)
    requires
        0 <= n <= 255,
    ensures
        is_octet_text(dec_digits(n)),
        dec_val(dec_digits(n)) == n,
        !dec_digits(n).contains(':'),
        !dec_digits(n).contains('.'),
{
    crate::digits::lemma_dec_digits_val(n);
    assert(crate::digits::pow10(0) == 1);
    assert(crate::digits::pow10(1) == 10);
    assert(crate::digits::pow10(2) == 100);
    assert(crate::digits::pow10(3) == 1000);
    crate::digits::lemma_dec_digits_len(n, 3);
    crate::digits::lemma_dec_digits_free_of(dec_digits(n), ':');
    crate::digits::lemma_dec_digits_free_of(dec_digits(n), '.');
}

/// The canonical display of an IPv4 address parses back to it.
#[verifier::rlimit(50)]
proof fn lemma_v4_roundtrip(a: u8, b: u8, c: u8, d: u8, port: u16)
    ensures
        parse_address(display_address(AddressModel::V4 { a, b, c, d, port })) == Some(
            AddressModel::V4 { a, b, c, d, port },
        ),
{
    let m = AddressModel::V4 { a, b, c, d, port };
    let sa = dec_digits(a as int);
    let sb = dec_digits(b as int);
    let sc = dec_digits(c as int);
    let sd = dec_digits(d as int);
    let sp = dec_digits(port as int);
    lemma_octet_text(a as int);
    lemma_octet_text(b as int);
    lemma_octet_text(c as int);
    lemma_octet_text(d as int);
    lemma_port_text(port as int);
    let dot = seq!['.'];
    let host = sa + dot + sb + dot + sc + dot + sd;
    let s = display_address(m);
    assert(s =~= host + seq![':'] + sp);
    assert(!dot.contains(':')) by {
        if dot.contains(':') {
            let w = choose|w: int| 0 <= w < dot.len() && dot[w] == ':';
            assert(dot[w] == '.');
        }
    }
    crate::scan::lemma_concat_free_of(sa, dot, ':');
    crate::scan::lemma_concat_free_of(sa + dot, sb, ':');
    crate::scan::lemma_concat_free_of(sa + dot + sb, dot, ':');
    crate::scan::lemma_concat_free_of(sa + dot + sb + dot, sc, ':');
    crate::scan::lemma_concat_free_of(sa + dot + sb + dot + sc, dot, ':');
    crate::scan::lemma_concat_free_of(sa + dot + sb + dot + sc + dot, sd, ':');
    crate::scan::lemma_split_on_sep(host, sp, ':');
    crate::scan::lemma_split_on_single(sp, ':');
    assert(s == host + seq![':'] + sp);
    let parts = split_on(s, ':');
    assert(parts == seq![host] + seq![sp]);
    assert(parts.len() == 2);
    assert(parts[0] == host);
    assert(parts[1] == sp);
    let rest2 = sc + dot + sd;
    let rest1 = sb + dot + rest2;
    assert(host =~= sa + dot + rest1);
    crate::scan::lemma_split_on_sep(sa, rest1, '.');
    crate::scan::lemma_split_on_sep(sb, rest2, '.');
    crate::scan::lemma_split_on_sep(sc, sd, '.');
    crate::scan::lemma_split_on_single(sd, '.');
    let segs = split_on(host, '.');
    assert(segs == seq![sa] + (seq![sb] + (seq![sc] + (seq![sd]))));
    assert(segs =~= seq![sa, sb, sc, sd]);
    assert(segs.len() == 4);
    assert(segs[0] == sa && segs[1] == sb && segs[2] == sc && segs[3] == sd);
    assert(parse_v4_text(s) == Some(m));
    assert(s[0] == sa[0]);
    assert(is_dec_digit(s.first()));
    assert(s.first() != '[');
    assert(parse_address(s) == Some(m));
}

/// The canonical text of a nonempty run of groups: every character is a
/// hex digit or a colon, it opens with a hex digit, and no two colons
/// stand side by side.
proof fn lemma_display_groups_props(groups: Seq<u16>)
    requires
        groups.len() >= 1,
    ensures
        display_groups(groups).len() >= 1,
        crate::digits::is_hex_digit(display_groups(groups).first()),
        crate::scan::no_double(display_groups(groups), ':'),
        forall|i: int|
            0 <= i < display_groups(groups).len() ==> crate::digits::is_hex_digit(
                #[trigger] display_groups(groups)[i],
            ) || display_groups(groups)[i] == ':',
    decreases groups.len(),
{
    let g = display_groups(groups);
    if groups.len() == 1 {
        crate::digits::lemma_hex_digits_val(groups[0] as int);
        assert forall|i: int| 0 <= i && i + 1 < g.len() implies (#[trigger] g[i]) != ':' || g[i
            + 1] != ':' by {
            assert(crate::digits::is_hex_digit(g[i]));
        }
    } else {
        let h = hex_digits(groups.first() as int);
        let rest = display_groups(groups.drop_first());
        lemma_display_groups_props(groups.drop_first());
        crate::digits::lemma_hex_digits_val(groups.first() as int);
        assert(!crate::digits::is_hex_digit(':'));
        crate::digits::lemma_hex_digits_free_of(h, ':');
        crate::scan::lemma_no_double_prepend(h, rest, ':');
        assert(g == h + seq![':'] + rest);
        assert forall|i: int|
            0 <= i < g.len() implies crate::digits::is_hex_digit(#[trigger] g[i]) || g[i]
            == ':' by {
            if i < h.len() {
                assert(g[i] == h[i]);
            } else if i == h.len() {
                assert(g[i] == ':');
            } else {
                assert(g[i] == rest[i - h.len() - 1]);
            }
        }
    }
}

/// Splitting the canonical text of a run of groups on colons gives back
/// each group's numeral.
proof fn lemma_split_display_groups(groups: Seq<u16>)
    requires
        groups.len() >= 1,
    ensures
        split_on(display_groups(groups), ':') == groups.map_values(
            |g: u16| hex_digits(g as int),
        ),
    decreases groups.len(),
{
    let g = display_groups(groups);
    let f = |g: u16| hex_digits(g as int);
    if groups.len() == 1 {
        crate::digits::lemma_hex_digits_val(groups[0] as int);
        assert(!crate::digits::is_hex_digit(':'));
        crate::digits::lemma_hex_digits_free_of(g, ':');
        crate::scan::lemma_split_on_single(g, ':');
        assert(split_on(g, ':') =~= groups.map_values(f));
    } else {
        let h = hex_digits(groups.first() as int);
        let rest = display_groups(groups.drop_first());
        crate::digits::lemma_hex_digits_val(groups.first() as int);
        assert(!crate::digits::is_hex_digit(':'));
        crate::digits::lemma_hex_digits_free_of(h, ':');
        crate::scan::lemma_split_on_sep(h, rest, ':');
        lemma_split_display_groups(groups.drop_first());
        let lhs = split_on(g, ':');
        assert(lhs == seq![h] + groups.drop_first().map_values(f));
        assert forall|i: int| 0 <= i < lhs.len() implies lhs[i] == groups.map_values(f)[i] by {
            if i > 0 {
                assert(lhs[i] == groups.drop_first().map_values(f)[i - 1]);
                assert(groups.drop_first()[i - 1] == groups[i]);
            }
        }
        assert(lhs =~= groups.map_values(f));
    }
}

/// The canonical display of an IPv6 address parses back to it.
proof fn lemma_v6_roundtrip(groups: Seq<u16>, port: u16)
    requires
        groups.len() == 8,
    ensures
        parse_address(display_address(AddressModel::V6 { groups, port })) == Some(
            AddressModel::V6 { groups, port },
        ),
{
    let m = AddressModel::V6 { groups, port };
    let g = display_groups(groups);
    let sp = dec_digits(port as int);
    let s = display_address(m);
    lemma_display_groups_props(groups);
    lemma_port_text(port as int);
    assert(s == seq!['['] + g + seq![']'] + seq![':'] + sp);
    assert(s.first() == '[');
    assert(s.len() > 0);
    let t = s.drop_first();
    assert(t =~= g + seq![']'] + seq![':'] + sp);
    crate::scan::lemma_find_first(t, ']');
    let gl = g.len() as int;
    assert(t[gl] == ']');
    assert(t.contains(']')) by {
        assert(t[gl] == ']');
    }
    let j = find_first(t, ']');
    assert(j >= 0);
    assert forall|jj: int| 0 <= jj < gl implies t[jj] != ']' by {
        assert(t[jj] == g[jj]);
        assert(crate::digits::is_hex_digit(g[jj]) || g[jj] == ':');
    }
    assert(j == gl) by {
        if j < gl {
            assert(t[j] == ']');
        }
        if j > gl {
            assert(t[gl] != ']');
        }
    }
    let inner = t.take(j);
    let rest = t.skip(j + 1);
    assert(inner =~= g);
    assert(rest =~= seq![':'] + sp);
    assert(rest.len() >= 2);
    assert(rest.first() == ':');
    assert(rest.drop_first() =~= sp);
    assert(is_port_text(rest.drop_first()));
    crate::scan::lemma_split_double_none(g, ':');
    lemma_split_display_groups(groups);
    let f = |gv: u16| hex_digits(gv as int);
    let parts = split_on(g, ':');
    assert(parts == groups.map_values(f));
    assert(crate::digits::pow16(0) == 1);
    assert(crate::digits::pow16(1) == 16);
    assert(crate::digits::pow16(2) == 256);
    assert(crate::digits::pow16(3) == 4096);
    assert(crate::digits::pow16(4) == 65536);
    assert forall|i: int| 0 <= i < parts.len() implies is_group_text(#[trigger] parts[i]) by {
        assert(parts[i] == f(groups[i]));
        crate::digits::lemma_hex_digits_val(groups[i] as int);
        crate::digits::lemma_hex_digits_len(groups[i] as int, 4);
    }
    assert(g.len() > 0);
    assert(parse_group_run(g) matches Some(gs) && gs =~= groups) by {
        assert forall|i: int|
            0 <= i < parts.len() implies parts.map_values(|p: Seq<char>| hex_val(p) as u16)[i]
            == groups[i] by {
            assert(parts[i] == f(groups[i]));
            crate::digits::lemma_hex_digits_val(groups[i] as int);
        }
    }
    assert(parse_v6_groups(inner) == Some(groups));
    assert(parse_v6_text(s) == Some(m));
    assert(parse_address(s) == Some(m));
}

/// The canonical display of a filesystem-socket address parses back to it.
proof fn lemma_unix_roundtrip(path: Seq<char>)
    requires
        path.len() > 0,
    ensures
        parse_address(display_address(AddressModel::Unix { path })) == Some(
            AddressModel::Unix { path },
        ),
{
    reveal_strlit("unix:");
    let s = display_address(AddressModel::Unix { path });
    assert(s == "unix:"@ + path);
    assert(s.len() > 5);
    assert(s.first() == 'u');
    assert(!is_dec_digit('u'));
    assert(s.take(5) =~= "unix:"@);
    assert(s.skip(5) =~= path);
    assert(parse_address(s) == Some(AddressModel::Unix { path }));
}

/// Any address the grammar accepts is well formed: eight groups for IPv6,
/// a nonempty path for a filesystem socket.
pub proof fn lemma_parse_wf(s: Seq<char>)
    ensures
        parse_address(s) matches Some(m) ==> m.wf(),
{
    if s.len() > 0 && s.first() == '[' {
        let t = s.drop_first();
        let j = find_first(t, ']');
        if j >= 0 {
            lemma_parse_v6_groups_len(t.take(j));
        }
    }
}

/// Law: the canonical display of any well-formed address parses back to
/// exactly that address.
pub proof fn lemma_display_roundtrip(m: AddressModel)
    requires
        m.wf(),
    ensures
        parse_address(display_address(m)) == Some(m),
{
    match m {
        AddressModel::V4 { a, b, c, d, port } => lemma_v4_roundtrip(a, b, c, d, port),
        AddressModel::V6 { groups, port } => lemma_v6_roundtrip(groups, port),
        AddressModel::Unix { path } => lemma_unix_roundtrip(path),
    }
}

/// Law: parse, display, parse is idempotent. Whatever address a valid
/// string denotes, the canonical display of that address denotes it too.
pub proof fn lemma_parse_display_parse(s: Seq<char>)
    ensures
        parse_address(s) matches Some(m) ==> parse_address(display_address(m)) == Some(m),
{
    lemma_parse_wf(s);
    match parse_address(s) {
        Some(m) => lemma_display_roundtrip(m),
        None => {},
    }
}

} // verus!
