//! IPv4 addresses and CIDR blocks: the dotted-quad grammar, its canonical
//! text, and the keys that the kernel's blocklist maps are indexed by.

use vstd::prelude::*;
use vstd::string::StringSliceAdditionalSpecFns;
use vstd::utf8::{encode_utf8, encode_utf8_decode_utf8, is_ascii_chars, is_ascii_chars_encode_utf8};
use crate::bytes::{ne_u32, u32_from_ne_bytes, u32_to_ne_bytes};
use crate::text::{
    all_digits, ascii_bytes, dec_text, dec_value, is_digit, lemma_ascii_bytes_add,
    lemma_canonical_digits, lemma_dec_text, lemma_dec_value_push, push_decimal, string_from_chars,
};

verus! {

/// An IPv4 address, by its four octets in network order.
#[derive(Clone, Copy, Debug, PartialEq, Eq, Structural)]
pub struct Ipv4 {
    pub a: u8,
    pub b: u8,
    pub c: u8,
    pub d: u8,
}

impl Ipv4 {
    /// The four octets, most significant first.
    pub open spec fn octets(self) -> Seq<u8> {
        seq![self.a, self.b, self.c, self.d]
    }
}

/// Splits `s` at every occurrence of `sep`; the result always has at least
/// one (possibly empty) part.
pub open spec fn split_on(s: Seq<u8>, sep: u8) -> Seq<Seq<u8>>
    decreases s.len(),
{
    if s.len() == 0 {
        seq![Seq::<u8>::empty()]
    } else {
        let p = split_on(s.drop_last(), sep);
        if s.last() == sep {
            p.push(Seq::<u8>::empty())
        } else {
            p.update(p.len() - 1, p.last().push(s.last()))
        }
    }
}

/// One octet of a dotted quad: one to three digits, no leading zero but in
/// "0" itself, at most 255.
pub open spec fn octet_ok(s: Seq<u8>) -> bool {
    &&& 1 <= s.len() <= 3
    &&& all_digits(s)
    &&& s[0] == 48 ==> s.len() == 1
    &&& dec_value(s) <= 255
}

/// The address that the bytes `s` spell in dotted-quad form
/// ("a.b.c.d", decimal octets), or `None` where they spell none.
pub open spec fn ipv4_spec(s: Seq<u8>) -> Option<Ipv4> {
    let p = split_on(s, 46);
    if p.len() == 4 && octet_ok(p[0]) && octet_ok(p[1]) && octet_ok(p[2]) && octet_ok(p[3]) {
        Some(
            Ipv4 {
                a: dec_value(p[0]) as u8,
                b: dec_value(p[1]) as u8,
                c: dec_value(p[2]) as u8,
                d: dec_value(p[3]) as u8,
            },
        )
    } else {
        None
    }
}

/// A split has at least one part.
pub proof fn lemma_split_nonempty(s: Seq<u8>, sep: u8)
    ensures
        split_on(s, sep).len() >= 1,
    decreases s.len(),
{
    if s.len() > 0 {
        lemma_split_nonempty(s.drop_last(), sep);
    }
}

/// How a split grows by one byte.
pub proof fn lemma_split_push(s: Seq<u8>, c: u8, sep: u8)
    ensures
        split_on(s.push(c), sep) == (if c == sep {
            split_on(s, sep).push(Seq::<u8>::empty())
        } else {
            split_on(s, sep).update(
                split_on(s, sep).len() - 1,
                split_on(s, sep).last().push(c),
            )
        }),
{
    assert(s.push(c).drop_last() =~= s);
}

/// Parses the bytes `b[lo..hi]` as a dotted quad.
fn parse_ipv4_bytes(b: &[u8], lo: usize, hi: usize) -> (r: Option<Ipv4>)
    requires
        lo <= hi <= b@.len(),
    ensures
        r == ipv4_spec(b@.subrange(lo as int, hi as int)),
{
    let mut octs: Vec<u8> = Vec::new();
    let mut done_ok = true;
    let mut cur_len: usize = 0;
    let mut cur_val: u32 = 0;
    let mut cur_digits = true;
    let mut cur_lead0 = false;
    let mut i = lo;
    assert(b@.subrange(lo as int, lo as int) =~= Seq::<u8>::empty());
    while i < hi
        invariant
            lo <= i <= hi <= b@.len(),
            cur_len <= i - lo,
            ({
                let sp = split_on(b@.subrange(lo as int, i as int), 46);
                let last = sp.last();
                &&& sp.len() >= 1
                &&& done_ok == ((forall|j: int| 0 <= j < sp.len() - 1 ==> octet_ok(#[trigger] sp[j]))
                    && sp.len() <= 4)
                &&& done_ok ==> octs@.len() == sp.len() - 1
                &&& done_ok ==> forall|j: int| 0 <= j < octs@.len() ==> #[trigger] octs@[j] == dec_value(sp[j])
                &&& cur_len == last.len()
                &&& cur_digits == all_digits(last)
                &&& cur_lead0 == (last.len() > 0 && last[0] == 48)
                &&& cur_len <= 3 && cur_digits ==> cur_val == dec_value(last)
                &&& cur_len <= 3 && cur_digits ==> cur_val < 1000
                &&& cur_len <= 2 && cur_digits ==> cur_val < 100
                &&& cur_len <= 1 && cur_digits ==> cur_val < 10
            }),
        decreases hi - i,
    {
        let c = b[i];
        let ghost pre = b@.subrange(lo as int, i as int);
        let ghost sp = split_on(pre, 46);
        assert(b@.subrange(lo as int, i + 1) =~= pre.push(c));
        proof {
            lemma_split_push(pre, c, 46);
        }
        if c == 46 {
            let ok = 1 <= cur_len && cur_len <= 3 && cur_digits && (!cur_lead0 || cur_len == 1)
                && cur_val <= 255;
            assert(ok == octet_ok(sp.last()));
            if done_ok && ok && octs.len() < 3 {
                octs.push(cur_val as u8);
            } else {
                done_ok = false;
            }
            cur_len = 0;
            cur_val = 0;
            cur_digits = true;
            cur_lead0 = false;
            let ghost nsp = split_on(b@.subrange(lo as int, i + 1), 46);
            assert(nsp.last() =~= Seq::<u8>::empty());
            assert forall|j: int| 0 <= j < nsp.len() - 1 implies nsp[j] == sp[j] by {}
        } else {
            let ghost last = sp.last();
            proof {
                lemma_dec_value_push(last, c);
            }
            if cur_len == 0 {
                cur_lead0 = c == 48;
            }
            if cur_len < 3 && cur_digits && 48 <= c && c <= 57 {
                cur_val = cur_val * 10 + (c - 48) as u32;
            }
            cur_digits = cur_digits && 48 <= c && c <= 57;
            cur_len = cur_len + 1;
            let ghost nsp = split_on(b@.subrange(lo as int, i + 1), 46);
            assert(nsp.last() =~= last.push(c));
            assert forall|j: int| 0 <= j < nsp.len() - 1 implies nsp[j] == sp[j] by {}
            assert(all_digits(last.push(c)) == (all_digits(last) && 48 <= c <= 57)) by {
                if all_digits(last) && 48 <= c <= 57 {
                    assert forall|k: int| 0 <= k < last.push(c).len() implies is_digit(
                        #[trigger] last.push(c)[k],
                    ) by {
                        if k < last.len() {
                            assert(last.push(c)[k] == last[k]);
                        }
                    }
                }
                if all_digits(last.push(c)) {
                    assert(is_digit(last.push(c)[last.len() as int]));
                    assert forall|k: int| 0 <= k < last.len() implies is_digit(#[trigger] last[k]) by {
                        assert(last.push(c)[k] == last[k]);
                    }
                }
            }
        }
        i = i + 1;
    }
    assert(b@.subrange(lo as int, i as int) == b@.subrange(lo as int, hi as int));
    let ok = 1 <= cur_len && cur_len <= 3 && cur_digits && (!cur_lead0 || cur_len == 1)
        && cur_val <= 255;
    if done_ok && ok && octs.len() == 3 {
        Some(Ipv4 { a: octs[0], b: octs[1], c: octs[2], d: cur_val as u8 })
    } else {
        None
    }
}


/// The number that the bytes `s` spell as an unsigned 32-bit decimal: an
/// optional leading '+', then one or more digits, at most `u32::MAX`.
pub open spec fn u32_spec(s: Seq<u8>) -> Option<u32> {
    let d = if s.len() > 0 && s[0] == 43 {
        s.drop_first()
    } else {
        s
    };
    if d.len() > 0 && all_digits(d) && dec_value(d) <= u32::MAX {
        Some(dec_value(d) as u32)
    } else {
        None
    }
}

/// Parses the bytes `b[lo..hi]` as an unsigned 32-bit decimal.
fn parse_u32_bytes(b: &[u8], lo: usize, hi: usize) -> (r: Option<u32>)
    requires
        lo <= hi <= b@.len(),
    ensures
        r == u32_spec(b@.subrange(lo as int, hi as int)),
{
    let ghost s = b@.subrange(lo as int, hi as int);
    let start = if lo < hi && b[lo] == 43 {
        lo + 1
    } else {
        lo
    };
    let ghost d = b@.subrange(start as int, hi as int);
    assert(d =~= (if s.len() > 0 && s[0] == 43 {
        s.drop_first()
    } else {
        s
    }));
    let mut val: u64 = 0;
    let mut over = false;
    let mut i = start;
    assert(b@.subrange(start as int, start as int) =~= Seq::<u8>::empty());
    while i < hi
        invariant
            start <= i <= hi <= b@.len(),
            d == b@.subrange(start as int, hi as int),
            u32_spec(b@.subrange(lo as int, hi as int)) == (if d.len() > 0 && all_digits(d)
                && dec_value(d) <= u32::MAX {
                Some(dec_value(d) as u32)
            } else {
                None
            }),
            ({
                let dp = b@.subrange(start as int, i as int);
                &&& all_digits(dp)
                &&& over == (dec_value(dp) > u32::MAX)
                &&& !over ==> val == dec_value(dp)
                &&& val <= u32::MAX
            }),
        decreases hi - i,
    {
        let c = b[i];
        let ghost dp = b@.subrange(start as int, i as int);
        assert(b@.subrange(start as int, i + 1) =~= dp.push(c));
        if !(48 <= c && c <= 57) {
            assert(d[i - start] == c);
            assert(!is_digit(d[i - start]));
            return None;
        }
        proof {
            lemma_dec_value_push(dp, c);
            assert forall|k: int| 0 <= k < dp.push(c).len() implies is_digit(#[trigger] dp.push(c)[k]) by {
                if k < dp.len() {
                    assert(dp.push(c)[k] == dp[k]);
                }
            }
        }
        if !over {
            let nv = val * 10 + (c - 48) as u64;
            if nv > 0xffff_ffffu64 {
                over = true;
            } else {
                val = nv;
            }
        }
        i = i + 1;
    }
    assert(b@.subrange(start as int, i as int) == d);
    if start == hi || over {
        None
    } else {
        Some(val as u32)
    }
}

/// The index of the first occurrence of `c` in `s`.
pub open spec fn find_byte(s: Seq<u8>, c: u8) -> Option<int>
    decreases s.len(),
{
    if s.len() == 0 {
        None
    } else if s[0] == c {
        Some(0)
    } else {
        match find_byte(s.drop_first(), c) {
            Some(k) => Some(k + 1),
            None => None,
        }
    }
}

/// The first occurrence lies inside `s`, holds `c`, and nothing before it does.
pub proof fn lemma_find_byte(s: Seq<u8>, c: u8)
    ensures
        match find_byte(s, c) {
            Some(k) => 0 <= k < s.len() && s[k] == c && forall|j: int| 0 <= j < k ==> s[j] != c,
            None => forall|j: int| 0 <= j < s.len() ==> s[j] != c,
        },
    decreases s.len(),
{
    if s.len() > 0 {
        lemma_find_byte(s.drop_first(), c);
        assert forall|j: int| 0 < j < s.len() implies s[j] == s.drop_first()[j - 1] by {}
    }
}

/// Finds the first occurrence of `c` in `b`.
fn find_first(b: &[u8], c: u8) -> (r: Option<usize>)
    ensures
        match find_byte(b@, c) {
            Some(k) => r matches Some(j) && j == k,
            None => r is None,
        },
{
    proof {
        lemma_find_byte(b@, c);
    }
    let mut i: usize = 0;
    assert(b@.skip(0) =~= b@);
    while i < b.len()
        invariant
            i <= b@.len(),
            match find_byte(b@.skip(i as int), c) {
                Some(k) => find_byte(b@, c) == Some(k + i),
                None => find_byte(b@, c) is None,
            },
        decreases b@.len() - i,
    {
        if b[i] == c {
            return Some(i);
        }
        assert(b@.skip(i as int).drop_first() =~= b@.skip(i + 1));
        i += 1;
    }
    None
}

/// A CIDR block: an address and a prefix length.
#[derive(Clone, Copy, Debug, PartialEq, Eq, Structural)]
pub struct Cidr {
    pub addr: Ipv4,
    pub prefix_len: u32,
}

/// Why a text is not a CIDR block.
#[derive(Clone, Copy, Debug, PartialEq, Eq, Structural)]
pub enum CidrError {
    /// No '/' separates address and prefix ("a.b.c.d/prefix" expected).
    MissingSlash,
    /// The part before the first '/' is not a dotted quad.
    InvalidIp,
    /// The part after the first '/' is not an unsigned decimal.
    InvalidPrefix,
    /// The prefix length is above 32.
    PrefixTooLarge,
}

/// The CIDR block that the bytes `s` spell as "a.b.c.d/prefix", split at the
/// first '/'.
pub open spec fn cidr_spec(s: Seq<u8>) -> Result<Cidr, CidrError> {
    match find_byte(s, 47) {
        None => Err(CidrError::MissingSlash),
        Some(k) => match ipv4_spec(s.subrange(0, k)) {
            None => Err(CidrError::InvalidIp),
            Some(addr) => match u32_spec(s.subrange(k + 1, s.len() as int)) {
                None => Err(CidrError::InvalidPrefix),
                Some(p) => if p > 32 {
                    Err(CidrError::PrefixTooLarge)
                } else {
                    Ok(Cidr { addr, prefix_len: p })
                },
            },
        },
    }
}

/// Why a text is not an IPv4 address.
#[derive(Clone, Copy, Debug, PartialEq, Eq, Structural)]
pub enum AddrError {
    InvalidIpv4,
}

/// Parses a dotted-quad IPv4 address.
pub fn parse_ipv4(s: &str) -> (r: Option<Ipv4>)
    ensures
        r == ipv4_spec(s.spec_bytes()),
{
    let b = s.as_bytes();
    assert(b@.subrange(0, b@.len() as int) =~= b@);
    parse_ipv4_bytes(b, 0, b.len())
}

/// Parses "a.b.c.d/prefix" into a CIDR block.
pub fn parse_cidr_block(s: &str) -> (r: Result<Cidr, CidrError>)
    ensures
        r == cidr_spec(s.spec_bytes()),
{
    let b = s.as_bytes();
    let n = b.len();
    assert(b@.subrange(0, n as int) =~= b@);
    proof {
        lemma_find_byte(b@, 47);
    }
    match find_first(b, 47) {
        None => Err(CidrError::MissingSlash),
        Some(k) => match parse_ipv4_bytes(b, 0, k) {
            None => Err(CidrError::InvalidIp),
            Some(addr) => match parse_u32_bytes(b, k + 1, n) {
                None => Err(CidrError::InvalidPrefix),
                Some(p) => if p > 32 {
                    Err(CidrError::PrefixTooLarge)
                } else {
                    Ok(Cidr { addr, prefix_len: p })
                },
            },
        },
    }
}

/// The blocklist key of an address: its octets read as a native-endian `u32`.
pub fn ipv4_key(a: &Ipv4) -> (k: u32)
    ensures
        k == ne_u32(a.octets()),
{
    let k = u32_from_ne_bytes([a.a, a.b, a.c, a.d]);
    assert([a.a, a.b, a.c, a.d]@ =~= a.octets());
    k
}

/// Key of the LPM-trie map of blocked CIDR blocks: the prefix length and the
/// address read as a native-endian `u32`.
#[derive(Clone, Copy, Debug, PartialEq, Eq, Structural)]
pub struct Ipv4LpmKey {
    pub prefixlen: u32,
    pub addr: u32,
}

impl Ipv4LpmKey {
    /// The key in the map's layout: the prefix length, then the address,
    /// each as four bytes in the machine's byte order.
    pub fn to_bytes(&self) -> (b: Vec<u8>)
        ensures
            b@.len() == 8,
            ne_u32(b@.subrange(0, 4)) == self.prefixlen,
            ne_u32(b@.subrange(4, 8)) == self.addr,
    {
        let p = u32_to_ne_bytes(self.prefixlen);
        let a = u32_to_ne_bytes(self.addr);
        let b = vec![p[0], p[1], p[2], p[3], a[0], a[1], a[2], a[3]];
        assert(b@.subrange(0, 4) =~= p@);
        assert(b@.subrange(4, 8) =~= a@);
        b
    }
}

/// The LPM key of a CIDR block.
pub open spec fn lpm_key_spec(c: Cidr) -> Ipv4LpmKey {
    Ipv4LpmKey { prefixlen: c.prefix_len, addr: ne_u32(c.addr.octets()) as u32 }
}

/// The LPM key of a CIDR block.
pub fn lpm_key(c: &Cidr) -> (k: Ipv4LpmKey)
    ensures
        k == lpm_key_spec(*c),
{
    Ipv4LpmKey { prefixlen: c.prefix_len, addr: ipv4_key(&c.addr) }
}

/// The blocklist key of a dotted-quad address.
pub fn ipv4_to_key(ip: &str) -> (r: Result<u32, AddrError>)
    ensures
        match ipv4_spec(ip.spec_bytes()) {
            Some(a) => r == Ok::<u32, AddrError>(ne_u32(a.octets()) as u32),
            None => r == Err::<u32, AddrError>(AddrError::InvalidIpv4),
        },
{
    match parse_ipv4(ip) {
        Some(a) => Ok(ipv4_key(&a)),
        None => Err(AddrError::InvalidIpv4),
    }
}

/// The LPM key of a CIDR block given as "a.b.c.d/prefix".
pub fn parse_cidr(cidr: &str) -> (r: Result<Ipv4LpmKey, CidrError>)
    ensures
        match cidr_spec(cidr.spec_bytes()) {
            Ok(c) => r == Ok::<Ipv4LpmKey, CidrError>(lpm_key_spec(c)),
            Err(e) => r == Err::<Ipv4LpmKey, CidrError>(e),
        },
{
    match parse_cidr_block(cidr) {
        Ok(c) => Ok(lpm_key(&c)),
        Err(e) => Err(e),
    }
}


/// The dotted-quad text of an address, each octet in decimal without
/// leading zeros.
pub open spec fn ipv4_text(a: Ipv4) -> Seq<char> {
    dec_text(a.a as nat) + seq!['.'] + dec_text(a.b as nat) + seq!['.'] + dec_text(a.c as nat)
        + seq!['.'] + dec_text(a.d as nat)
}

/// The canonical text of a CIDR block, "a.b.c.d/prefix".
pub open spec fn cidr_text(c: Cidr) -> Seq<char> {
    ipv4_text(c.addr) + seq!['/'] + dec_text(c.prefix_len as nat)
}

/// Appends the dotted-quad text of an address.
pub fn push_ipv4_text(out: &mut Vec<char>, a: &Ipv4)
    ensures
        final(out)@ == old(out)@ + ipv4_text(*a),
{
    push_decimal(out, a.a as u64);
    out.push('.');
    push_decimal(out, a.b as u64);
    out.push('.');
    push_decimal(out, a.c as u64);
    out.push('.');
    push_decimal(out, a.d as u64);
    assert(final(out)@ =~= old(out)@ + ipv4_text(*a));
}

/// Appends the canonical text of a CIDR block.
pub fn push_cidr_text(out: &mut Vec<char>, c: &Cidr)
    ensures
        final(out)@ == old(out)@ + cidr_text(*c),
{
    push_ipv4_text(out, &c.addr);
    out.push('/');
    push_decimal(out, c.prefix_len as u64);
    assert(final(out)@ =~= old(out)@ + cidr_text(*c));
}

/// The dotted-quad text of an address.
pub fn ipv4_string(a: &Ipv4) -> (s: String)
    ensures
        s@ == ipv4_text(*a),
{
    let mut v: Vec<char> = Vec::new();
    push_ipv4_text(&mut v, a);
    assert(v@ =~= ipv4_text(*a));
    string_from_chars(&v)
}

/// The canonical text of a CIDR block.
pub fn cidr_string(c: &Cidr) -> (s: String)
    ensures
        s@ == cidr_text(*c),
{
    let mut v: Vec<char> = Vec::new();
    push_cidr_text(&mut v, c);
    assert(v@ =~= cidr_text(*c));
    string_from_chars(&v)
}

/// The canonical text of a CIDR block given as "a.b.c.d/prefix".
pub fn normalize_cidr(cidr: &str) -> (r: Result<String, CidrError>)
    ensures
        match cidr_spec(cidr.spec_bytes()) {
            Ok(c) => r matches Ok(t) && t@ == cidr_text(c),
            Err(e) => r == Err::<String, CidrError>(e),
        },
{
    match parse_cidr_block(cidr) {
        Ok(c) => Ok(cidr_string(&c)),
        Err(e) => Err(e),
    }
}

/// Joins parts with a separator between each two.
pub open spec fn join_with(parts: Seq<Seq<u8>>, sep: u8) -> Seq<u8>
    decreases parts.len(),
{
    if parts.len() <= 1 {
        if parts.len() == 1 {
            parts[0]
        } else {
            Seq::<u8>::empty()
        }
    } else {
        join_with(parts.drop_last(), sep) + seq![sep] + parts.last()
    }
}

/// Joining the parts of a split gives back the text.
pub proof fn lemma_join_split(s: Seq<u8>, sep: u8)
    ensures
        join_with(split_on(s, sep), sep) == s,
    decreases s.len(),
{
    if s.len() > 0 {
        let t = s.drop_last();
        let c = s.last();
        lemma_join_split(t, sep);
        lemma_split_nonempty(t, sep);
        lemma_split_push(t, c, sep);
        assert(t.push(c) == s);
        let p = split_on(t, sep);
        if c == sep {
            assert(p.push(Seq::<u8>::empty()).drop_last() =~= p);
            assert(join_with(p.push(Seq::<u8>::empty()), sep) =~= s);
        } else {
            let u = p.update(p.len() - 1, p.last().push(c));
            if p.len() == 1 {
                assert(join_with(u, sep) =~= s);
            } else {
                assert(u.drop_last() =~= p.drop_last());
                assert(join_with(u, sep) =~= s);
            }
        }
    }
}

/// Splitting after a separator and a run free of it adds that run as the
/// last part.
pub proof fn lemma_split_append(x: Seq<u8>, y: Seq<u8>, sep: u8)
    requires
        forall|i: int| 0 <= i < y.len() ==> y[i] != sep,
    ensures
        split_on(x + seq![sep] + y, sep) == split_on(x, sep).push(y),
    decreases y.len(),
{
    if y.len() == 0 {
        assert(x + seq![sep] + y =~= x.push(sep));
        assert(y =~= Seq::<u8>::empty());
        lemma_split_push(x, sep, sep);
        assert(split_on(x, sep).push(Seq::<u8>::empty()) =~= split_on(x, sep).push(y));
    } else {
        let z = y.drop_last();
        let c = y.last();
        assert(y[y.len() - 1] != sep);
        assert forall|i: int| 0 <= i < z.len() implies z[i] != sep by {
            assert(z[i] == y[i]);
        }
        assert(z.push(c) =~= y);
        lemma_split_append(x, z, sep);
        assert(x + seq![sep] + y =~= (x + seq![sep] + z).push(c));
        lemma_split_push(x + seq![sep] + z, c, sep);
        assert(split_on(x, sep).push(z).update(split_on(x, sep).len() as int, z.push(c))
            =~= split_on(x, sep).push(y));
    }
}

/// A run free of the separator splits into itself alone.
pub proof fn lemma_split_single(y: Seq<u8>, sep: u8)
    requires
        forall|i: int| 0 <= i < y.len() ==> y[i] != sep,
    ensures
        split_on(y, sep) == seq![y],
    decreases y.len(),
{
    if y.len() > 0 {
        let z = y.drop_last();
        assert(y[y.len() - 1] != sep);
        assert forall|i: int| 0 <= i < z.len() implies z[i] != sep by {
            assert(z[i] == y[i]);
        }
        lemma_split_single(z, sep);
        lemma_split_push(z, y.last(), sep);
        assert(z.push(y.last()) == y);
        assert(seq![z].update(0, z.push(y.last())) =~= seq![y]);
    } else {
        assert(y =~= Seq::<u8>::empty());
    }
}

/// The bytes of the decimal text of an octet form a valid octet of that value.
proof fn lemma_octet_text(n: u8)
    ensures
        octet_ok(ascii_bytes(dec_text(n as nat))),
        dec_value(ascii_bytes(dec_text(n as nat))) == n,
        forall|i: int|
            0 <= i < ascii_bytes(dec_text(n as nat)).len() ==> is_digit(
                #[trigger] ascii_bytes(dec_text(n as nat))[i],
            ),
{
    lemma_dec_text(n as nat);
}

/// The dotted-quad text of an address parses back to that address.
pub proof fn lemma_ipv4_text_parses(a: Ipv4)
    ensures
        ipv4_spec(ascii_bytes(ipv4_text(a))) == Some(a),
{
    let da = dec_text(a.a as nat);
    let db = dec_text(a.b as nat);
    let dc = dec_text(a.c as nat);
    let dd = dec_text(a.d as nat);
    lemma_octet_text(a.a);
    lemma_octet_text(a.b);
    lemma_octet_text(a.c);
    lemma_octet_text(a.d);
    let ba = ascii_bytes(da);
    let bb = ascii_bytes(db);
    let bc = ascii_bytes(dc);
    let bd = ascii_bytes(dd);
    let dot = seq!['.'];
    assert(ascii_bytes(dot) =~= seq![46u8]);
    lemma_ascii_bytes_add(da, dot);
    lemma_ascii_bytes_add(da + dot, db);
    lemma_ascii_bytes_add(da + dot + db, dot);
    lemma_ascii_bytes_add(da + dot + db + dot, dc);
    lemma_ascii_bytes_add(da + dot + db + dot + dc, dot);
    lemma_ascii_bytes_add(da + dot + db + dot + dc + dot, dd);
    let s = ascii_bytes(ipv4_text(a));
    assert(s == ba + seq![46u8] + bb + seq![46u8] + bc + seq![46u8] + bd);
    lemma_split_single(ba, 46);
    lemma_split_append(ba, bb, 46);
    lemma_split_append(ba + seq![46u8] + bb, bc, 46);
    lemma_split_append(ba + seq![46u8] + bb + seq![46u8] + bc, bd, 46);
    let p = split_on(s, 46);
    assert(p =~= seq![ba, bb, bc, bd]);
}

/// Only the canonical text of an address parses: what parses is exactly
/// the dotted-quad text of the address it gives.
pub proof fn lemma_ipv4_parse_canonical(s: Seq<u8>)
    requires
        ipv4_spec(s) is Some,
    ensures
        ascii_bytes(ipv4_text(ipv4_spec(s).unwrap())) == s,
{
    let p = split_on(s, 46);
    let a = ipv4_spec(s).unwrap();
    lemma_join_split(s, 46);
    let p1 = p.drop_last();
    let p2 = p1.drop_last();
    let p3 = p2.drop_last();
    assert(p3 =~= seq![p[0]]);
    assert(join_with(p3, 46) == p[0]);
    assert(p2.last() == p[1]);
    assert(join_with(p2, 46) == join_with(p3, 46) + seq![46u8] + p[1]);
    assert(p1.last() == p[2]);
    assert(join_with(p1, 46) == join_with(p2, 46) + seq![46u8] + p[2]);
    assert(join_with(p, 46) == join_with(p1, 46) + seq![46u8] + p[3]);
    lemma_canonical_digits(p[0]);
    lemma_canonical_digits(p[1]);
    lemma_canonical_digits(p[2]);
    lemma_canonical_digits(p[3]);
    let da = dec_text(a.a as nat);
    let db = dec_text(a.b as nat);
    let dc = dec_text(a.c as nat);
    let dd = dec_text(a.d as nat);
    let dot = seq!['.'];
    assert(ascii_bytes(dot) =~= seq![46u8]);
    lemma_ascii_bytes_add(da, dot);
    lemma_ascii_bytes_add(da + dot, db);
    lemma_ascii_bytes_add(da + dot + db, dot);
    lemma_ascii_bytes_add(da + dot + db + dot, dc);
    lemma_ascii_bytes_add(da + dot + db + dot + dc, dot);
    lemma_ascii_bytes_add(da + dot + db + dot + dc + dot, dd);
}


/// Every character of an address's text is a digit or a dot.
pub proof fn lemma_ipv4_text_chars(a: Ipv4)
    ensures
        forall|i: int|
            0 <= i < ipv4_text(a).len() ==> #[trigger] ipv4_text(a)[i] == '.' || ('0'
                <= ipv4_text(a)[i] <= '9'),
{
    lemma_dec_text(a.a as nat);
    lemma_dec_text(a.b as nat);
    lemma_dec_text(a.c as nat);
    lemma_dec_text(a.d as nat);
    let t = ipv4_text(a);
    let da = dec_text(a.a as nat);
    let db = dec_text(a.b as nat);
    let dc = dec_text(a.c as nat);
    let dd = dec_text(a.d as nat);
    assert forall|i: int| 0 <= i < t.len() implies #[trigger] t[i] == '.' || ('0' <= t[i] <= '9') by {
        let la = da.len() as int;
        let lb = db.len() as int;
        let lc = dc.len() as int;
        if i < la {
            assert(t[i] == da[i]);
        } else if i == la {
        } else if i < la + 1 + lb {
            assert(t[i] == db[i - la - 1]);
        } else if i == la + 1 + lb {
        } else if i < la + 2 + lb + lc {
            assert(t[i] == dc[i - la - 2 - lb]);
        } else if i == la + 2 + lb + lc {
        } else {
            assert(t[i] == dd[i - la - 3 - lb - lc]);
        }
    }
}

/// The first occurrence of `c` after a run free of it.
pub proof fn lemma_find_byte_after(x: Seq<u8>, y: Seq<u8>, c: u8)
    requires
        forall|i: int| 0 <= i < x.len() ==> x[i] != c,
    ensures
        find_byte(x + seq![c] + y, c) == Some(x.len() as int),
    decreases x.len(),
{
    let s = x + seq![c] + y;
    if x.len() > 0 {
        assert(x[0] != c);
        assert(s.drop_first() =~= x.drop_first() + seq![c] + y);
        assert forall|i: int| 0 <= i < x.drop_first().len() implies x.drop_first()[i] != c by {
            assert(x.drop_first()[i] == x[i + 1]);
        }
        lemma_find_byte_after(x.drop_first(), y, c);
    }
}

/// The canonical text of a CIDR block with a prefix of at most 32 parses
/// back to that block.
pub proof fn lemma_cidr_text_parses(c: Cidr)
    requires
        c.prefix_len <= 32,
    ensures
        cidr_spec(ascii_bytes(cidr_text(c))) == Ok::<Cidr, CidrError>(c),
{
    let x = ascii_bytes(ipv4_text(c.addr));
    let pt = dec_text(c.prefix_len as nat);
    let y = ascii_bytes(pt);
    lemma_ascii_bytes_add(ipv4_text(c.addr), seq!['/']);
    lemma_ascii_bytes_add(ipv4_text(c.addr) + seq!['/'], pt);
    assert(ascii_bytes(seq!['/']) =~= seq![47u8]);
    let s = ascii_bytes(cidr_text(c));
    assert(s == x + seq![47u8] + y);
    lemma_ipv4_text_chars(c.addr);
    assert forall|i: int| 0 <= i < x.len() implies x[i] != 47 by {
        assert(x[i] == ipv4_text(c.addr)[i] as u8);
    }
    lemma_find_byte_after(x, y, 47);
    assert(s.subrange(0, x.len() as int) =~= x);
    assert(s.subrange(x.len() as int + 1, s.len() as int) =~= y);
    lemma_ipv4_text_parses(c.addr);
    lemma_dec_text(c.prefix_len as nat);
    assert(is_digit(y[0]));
}


/// A text whose UTF-8 bytes parse as a dotted quad is exactly the canonical
/// text of the address it gives: every accepted address text is canonical.
pub proof fn lemma_ipv4_text_is_input(t: Seq<char>)
    requires
        ipv4_spec(encode_utf8(t)) is Some,
    ensures
        ipv4_text(ipv4_spec(encode_utf8(t)).unwrap()) == t,
{
    let a = ipv4_spec(encode_utf8(t)).unwrap();
    let u = ipv4_text(a);
    lemma_ipv4_parse_canonical(encode_utf8(t));
    lemma_ipv4_text_chars(a);
    assert(is_ascii_chars(u));
    is_ascii_chars_encode_utf8(u);
    assert(encode_utf8(u) =~= ascii_bytes(u));
    encode_utf8_decode_utf8(u);
    encode_utf8_decode_utf8(t);
}


/// Normalizing is idempotent: the canonical text of a block that a text
/// spells parses back to that same block.
pub proof fn lemma_normalize_idempotent(s: Seq<u8>)
    requires
        cidr_spec(s) is Ok,
    ensures
        cidr_spec(encode_utf8(cidr_text(cidr_spec(s).unwrap()))) == cidr_spec(s),
{
    let c = cidr_spec(s).unwrap();
    let t = cidr_text(c);
    lemma_cidr_text_parses(c);
    lemma_ipv4_text_chars(c.addr);
    lemma_dec_text(c.prefix_len as nat);
    let it = ipv4_text(c.addr);
    let pt = dec_text(c.prefix_len as nat);
    assert forall|i: int| 0 <= i < t.len() implies '\0' <= #[trigger] t[i] <= '\u{7f}' by {
        if i < it.len() {
            assert(t[i] == it[i]);
        } else if i > it.len() {
            assert(t[i] == pt[i - it.len() - 1]);
        }
    }
    assert(is_ascii_chars(t));
    is_ascii_chars_encode_utf8(t);
    assert(encode_utf8(t) =~= ascii_bytes(t));
}


/// The LPM key of a block holds the block's prefix length unchanged, for
/// every prefix length, and its address as the blocklist does: the octets
/// a, b, c, d (network order) read in the machine's byte order. So the key
/// parsed from "a.b.c.d/p" carries exactly p.
pub proof fn lemma_lpm_key_of_block(c: Cidr)
    ensures
        lpm_key_spec(c).prefixlen == c.prefix_len,
        lpm_key_spec(c).addr == ne_u32(seq![c.addr.a, c.addr.b, c.addr.c, c.addr.d]),
        c.prefix_len <= 32 ==> (cidr_spec(ascii_bytes(cidr_text(c))) matches Ok(d) && lpm_key_spec(
            d,
        ).prefixlen == c.prefix_len),
{
    assert(c.addr.octets() =~= seq![c.addr.a, c.addr.b, c.addr.c, c.addr.d]);
    if c.prefix_len <= 32 {
        lemma_cidr_text_parses(c);
    }
}


/// The prefix grammar is that of `u32`'s decimal parsing: one or more
/// digits, optionally after a single '+', at most `u32::MAX`, leading zeros
/// allowed; nothing else (no '-', no lone '+', no empty text).
pub proof fn lemma_u32_grammar(d: Seq<u8>)
    ensures
        d.len() > 0 && all_digits(d) && dec_value(d) <= u32::MAX ==> u32_spec(d) == Some(
            dec_value(d) as u32,
        ) && u32_spec(seq![43u8] + d) == Some(dec_value(d) as u32) && u32_spec(seq![48u8] + d)
            == Some(dec_value(d) as u32),
        u32_spec(seq![45u8] + d) is None,
        u32_spec(Seq::<u8>::empty()) is None,
        u32_spec(seq![43u8]) is None,
        u32_spec(seq![43u8, 43u8] + d) is None,
{
    assert((seq![43u8] + d).drop_first() =~= d);
    assert((seq![43u8, 43u8] + d).drop_first() =~= seq![43u8] + d);
    assert(!is_digit((seq![45u8] + d)[0]));
    assert(!is_digit((seq![43u8] + d)[0]));
    assert(seq![43u8].drop_first() =~= Seq::<u8>::empty());
    if d.len() > 0 && all_digits(d) && dec_value(d) <= u32::MAX {
        let z = seq![48u8] + d;
        assert forall|i: int| 0 <= i < z.len() implies is_digit(#[trigger] z[i]) by {
            if i > 0 {
                assert(z[i] == d[i - 1]);
            }
        }
        lemma_dec_value_leading_zero(d);
    }
}

/// A leading zero does not change a digit run's value.
pub proof fn lemma_dec_value_leading_zero(d: Seq<u8>)
    ensures
        dec_value(seq![48u8] + d) == dec_value(d),
    decreases d.len(),
{
    if d.len() == 0 {
        assert((seq![48u8] + d).drop_last() =~= Seq::<u8>::empty());
        assert((seq![48u8] + d).last() == 48u8);
        assert(dec_value(Seq::<u8>::empty()) == 0);
    } else {
        lemma_dec_value_leading_zero(d.drop_last());
        assert((seq![48u8] + d).drop_last() =~= seq![48u8] + d.drop_last());
        assert((seq![48u8] + d).last() == d.last());
        assert(dec_value(seq![48u8] + d) == dec_value(seq![48u8] + d.drop_last()) * 10 + (d.last()
            - 48) as nat);
    }
}


/// A CIDR text splits at its first '/': the address is what comes before
/// it, the prefix everything after it (a later '/' belongs to the prefix);
/// a text with no '/' is missing it.
pub proof fn lemma_cidr_split_at_first_slash(x: Seq<u8>, y: Seq<u8>)
    requires
        forall|i: int| 0 <= i < x.len() ==> x[i] != 47,
    ensures
        cidr_spec(x + seq![47u8] + y) == (match ipv4_spec(x) {
            None => Err::<Cidr, CidrError>(CidrError::InvalidIp),
            Some(addr) => match u32_spec(y) {
                None => Err(CidrError::InvalidPrefix),
                Some(p) => if p > 32 {
                    Err(CidrError::PrefixTooLarge)
                } else {
                    Ok(Cidr { addr, prefix_len: p })
                },
            },
        }),
        cidr_spec(x) == Err::<Cidr, CidrError>(CidrError::MissingSlash),
{
    let s = x + seq![47u8] + y;
    lemma_find_byte_after(x, y, 47);
    assert(s.subrange(0, x.len() as int) =~= x);
    assert(s.subrange(x.len() as int + 1, s.len() as int) =~= y);
    lemma_find_byte(x, 47);
}

} // verus!
