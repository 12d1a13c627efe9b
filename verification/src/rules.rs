//! The control plane's record of the rules it has installed, the rule
//! changes that requests ask for, and the epoch that versions them.

use vstd::prelude::*;
use vstd::string::StringSliceAdditionalSpecFns;
use vstd::utf8::encode_utf8;
use crate::addr::{
    cidr_spec, cidr_text, ipv4_key, ipv4_spec, ipv4_text, lemma_ipv4_text_is_input, lpm_key,
    lpm_key_spec, parse_cidr_block, parse_ipv4, push_cidr_text, push_ipv4_text, Cidr, CidrError,
    Ipv4, Ipv4LpmKey,
};
use crate::bytes::ne_u32;
use crate::maps::{TcpSignatureReq, TcpSignatureResp};
use crate::text::{insert_sorted, string_from_chars, strictly_sorted, texts};

verus! {

/// A change to the rules: what to write to or delete from the kernel's
/// rule maps, and the address, block or switches it concerns.
#[derive(Clone, Copy, Debug)]
pub enum RuleOp {
    /// Add an address to the blocklist map, under `key`.
    BlockIp { addr: Ipv4, key: u32 },
    /// Delete an address from the blocklist map, under `key`.
    UnblockIp { addr: Ipv4, key: u32 },
    /// Add a CIDR block to the LPM-trie map, under `lpm_key`.
    BlockCidr { cidr: Cidr, lpm_key: Ipv4LpmKey },
    /// Delete a CIDR block from the LPM-trie map, under `lpm_key`.
    UnblockCidr { cidr: Cidr, lpm_key: Ipv4LpmKey },
    /// Store new TCP signature switches.
    SetTcpSignatures { signatures: TcpSignatureReq },
}

/// What the rule store records: the epoch, the blocked addresses and CIDR
/// blocks, and the TCP signature switches.
pub ghost struct RuleSnapshot {
    pub epoch: u64,
    pub blocked_ips: Set<Ipv4>,
    pub blocked_cidrs: Set<Cidr>,
    pub tcp_signatures: TcpSignatureReq,
}

/// The record after one change.
pub open spec fn apply_op(s: RuleSnapshot, op: RuleOp) -> RuleSnapshot {
    match op {
        RuleOp::BlockIp { addr, .. } => RuleSnapshot {
            blocked_ips: s.blocked_ips.insert(addr),
            ..s
        },
        RuleOp::UnblockIp { addr, .. } => RuleSnapshot {
            blocked_ips: s.blocked_ips.remove(addr),
            ..s
        },
        RuleOp::BlockCidr { cidr, .. } => RuleSnapshot {
            blocked_cidrs: s.blocked_cidrs.insert(cidr),
            ..s
        },
        RuleOp::UnblockCidr { cidr, .. } => RuleSnapshot {
            blocked_cidrs: s.blocked_cidrs.remove(cidr),
            ..s
        },
        RuleOp::SetTcpSignatures { signatures } => RuleSnapshot { tcp_signatures: signatures, ..s },
    }
}

/// The record after a sequence of changes, applied in order.
pub open spec fn apply_ops(s: RuleSnapshot, ops: Seq<RuleOp>) -> RuleSnapshot
    decreases ops.len(),
{
    if ops.len() == 0 {
        s
    } else {
        apply_op(apply_ops(s, ops.drop_last()), ops.last())
    }
}

/// The rules that the control plane has installed in the kernel's maps.
pub struct RuleStore {
    epoch: u64,
    blocked_ips: Vec<Ipv4>,
    blocked_cidrs: Vec<Cidr>,
    tcp_signatures: TcpSignatureReq,
}

impl View for RuleStore {
    type V = RuleSnapshot;

    closed spec fn view(&self) -> RuleSnapshot {
        RuleSnapshot {
            epoch: self.epoch,
            blocked_ips: self.blocked_ips@.to_set(),
            blocked_cidrs: self.blocked_cidrs@.to_set(),
            tcp_signatures: self.tcp_signatures,
        }
    }
}

/// Where `a` stands in `v`, if it does.
fn index_of_ip(v: &Vec<Ipv4>, a: &Ipv4) -> (r: Option<usize>)
    ensures
        match r {
            Some(i) => i < v@.len() && v@[i as int] == *a,
            None => !v@.contains(*a),
        },
{
    let mut i: usize = 0;
    while i < v.len()
        invariant
            i <= v@.len(),
            forall|j: int| 0 <= j < i ==> v@[j] != *a,
        decreases v@.len() - i,
    {
        if v[i] == *a {
            return Some(i);
        }
        i += 1;
    }
    None
}

/// Where `a` stands in `v`, if it does.
fn index_of_cidr(v: &Vec<Cidr>, a: &Cidr) -> (r: Option<usize>)
    ensures
        match r {
            Some(i) => i < v@.len() && v@[i as int] == *a,
            None => !v@.contains(*a),
        },
{
    let mut i: usize = 0;
    while i < v.len()
        invariant
            i <= v@.len(),
            forall|j: int| 0 <= j < i ==> v@[j] != *a,
        decreases v@.len() - i,
    {
        if v[i] == *a {
            return Some(i);
        }
        i += 1;
    }
    None
}

/// Adds `a` to a vector without duplicates, unless it is there.
fn insert_unique<T>(v: &mut Vec<T>, a: T, pos: Option<usize>)
    requires
        old(v)@.no_duplicates(),
        match pos {
            Some(i) => i < old(v)@.len() && old(v)@[i as int] == a,
            None => !old(v)@.contains(a),
        },
    ensures
        final(v)@.no_duplicates(),
        final(v)@.to_set() == old(v)@.to_set().insert(a),
{
    match pos {
        Some(i) => {
            assert(v@.to_set() =~= v@.to_set().insert(a));
        },
        None => {
            let ghost before = v@;
            v.push(a);
            proof {
                before.lemma_push_to_set_commute(a);
            }
        },
    }
}

/// Removes `a` from a vector without duplicates, if it is there.
fn remove_unique<T>(v: &mut Vec<T>, a: &T, pos: Option<usize>)
    requires
        old(v)@.no_duplicates(),
        match pos {
            Some(i) => i < old(v)@.len() && old(v)@[i as int] == *a,
            None => !old(v)@.contains(*a),
        },
    ensures
        final(v)@.no_duplicates(),
        final(v)@.to_set() == old(v)@.to_set().remove(*a),
{
    match pos {
        Some(i) => {
            let ghost before = v@;
            v.remove(i);
            assert forall|x: T| v@.to_set().contains(x) == before.to_set().remove(*a).contains(x) by {
                if v@.contains(x) {
                    let k = choose|k: int| 0 <= k < v@.len() && v@[k] == x;
                    if k < i {
                        assert(before[k] == x);
                    } else {
                        assert(before[k + 1] == x);
                    }
                }
                if before.contains(x) && x != *a {
                    let k = choose|k: int| 0 <= k < before.len() && before[k] == x;
                    if k < i {
                        assert(v@[k] == x);
                    } else {
                        assert(v@[k - 1] == x);
                    }
                }
            }
            assert(v@.to_set() =~= before.to_set().remove(*a));
        },
        None => {
            assert(v@.to_set() =~= v@.to_set().remove(*a));
        },
    }
}

impl RuleStore {
    #[verifier::type_invariant]
    spec fn wf(self) -> bool {
        &&& self.blocked_ips@.no_duplicates()
        &&& self.blocked_cidrs@.no_duplicates()
    }

    /// A store at `epoch` with nothing blocked and both TCP signatures on.
    pub fn new(epoch: u64) -> (s: Self)
        ensures
            s@ == (RuleSnapshot {
                epoch,
                blocked_ips: Set::empty(),
                blocked_cidrs: Set::empty(),
                tcp_signatures: TcpSignatureReq { block_null_scan: true, block_xmas_scan: true },
            }),
    {
        let s = RuleStore {
            epoch,
            blocked_ips: Vec::new(),
            blocked_cidrs: Vec::new(),
            tcp_signatures: TcpSignatureReq { block_null_scan: true, block_xmas_scan: true },
        };
        assert(s.blocked_ips@.to_set() =~= Set::empty());
        assert(s.blocked_cidrs@.to_set() =~= Set::empty());
        s
    }

    /// The current rules epoch.
    pub fn epoch(&self) -> (e: u64)
        ensures
            e == self@.epoch,
    {
        self.epoch
    }

    /// How many addresses are blocked.
    pub fn blocked_ip_count(&self) -> (n: usize)
        ensures
            n == self@.blocked_ips.len(),
    {
        proof {
            use_type_invariant(self);
            self.blocked_ips@.unique_seq_to_set();
        }
        self.blocked_ips.len()
    }

    /// How many CIDR blocks are blocked.
    pub fn blocked_cidr_count(&self) -> (n: usize)
        ensures
            n == self@.blocked_cidrs.len(),
    {
        proof {
            use_type_invariant(self);
            self.blocked_cidrs@.unique_seq_to_set();
        }
        self.blocked_cidrs.len()
    }

    /// Records a change whose map update has been made.
    pub fn apply(&mut self, op: &RuleOp)
        ensures
            final(self)@ == apply_op(old(self)@, *op),
    {
        proof {
            use_type_invariant(&*self);
        }
        match op {
            RuleOp::BlockIp { addr, .. } => {
                let mut v: Vec<_> = Vec::new();
                std::mem::swap(&mut v, &mut self.blocked_ips);
                let pos = index_of_ip(&v, addr);
                insert_unique(&mut v, *addr, pos);
                self.blocked_ips = v;
            },
            RuleOp::UnblockIp { addr, .. } => {
                let mut v: Vec<_> = Vec::new();
                std::mem::swap(&mut v, &mut self.blocked_ips);
                let pos = index_of_ip(&v, addr);
                remove_unique(&mut v, addr, pos);
                self.blocked_ips = v;
            },
            RuleOp::BlockCidr { cidr, .. } => {
                let mut v: Vec<_> = Vec::new();
                std::mem::swap(&mut v, &mut self.blocked_cidrs);
                let pos = index_of_cidr(&v, cidr);
                insert_unique(&mut v, *cidr, pos);
                self.blocked_cidrs = v;
            },
            RuleOp::UnblockCidr { cidr, .. } => {
                let mut v: Vec<_> = Vec::new();
                std::mem::swap(&mut v, &mut self.blocked_cidrs);
                let pos = index_of_cidr(&v, cidr);
                remove_unique(&mut v, cidr, pos);
                self.blocked_cidrs = v;
            },
            RuleOp::SetTcpSignatures { signatures } => {
                self.tcp_signatures = *signatures;
            },
        }
    }
}

/// Records the epoch that a bump of the kernel's epoch stored, and passes
/// on the outcome of that bump; a failed bump leaves the store as it was.
pub fn next_epoch<E>(rules: &mut RuleStore, bumped: Result<u64, E>) -> (r: Result<u64, E>)
    ensures
        r == bumped,
        match bumped {
            Ok(n) => final(rules)@ == (RuleSnapshot { epoch: n, ..old(rules)@ }),
            Err(_) => final(rules)@ == old(rules)@,
        },
{
    match bumped {
        Ok(n) => {
            proof {
                use_type_invariant(&*rules);
            }
            rules.epoch = n;
            Ok(n)
        },
        Err(e) => Err(e),
    }
}


/// Why a request is refused before it changes anything more.
#[derive(Clone, Copy, Debug, PartialEq, Eq, Structural)]
pub enum ApiError {
    /// An address or CIDR block in the request does not parse.
    BadRequest,
    /// A batch holds more address or CIDR updates than one call may make.
    TooManyUpdates,
}

/// The change that blocks (`block`) or unblocks an address.
pub open spec fn ip_op(a: Ipv4, block: bool) -> RuleOp {
    if block {
        RuleOp::BlockIp { addr: a, key: ne_u32(a.octets()) as u32 }
    } else {
        RuleOp::UnblockIp { addr: a, key: ne_u32(a.octets()) as u32 }
    }
}

/// The change that blocks (`block`) or unblocks a CIDR block.
pub open spec fn cidr_op(c: Cidr, block: bool) -> RuleOp {
    if block {
        RuleOp::BlockCidr { cidr: c, lpm_key: lpm_key_spec(c) }
    } else {
        RuleOp::UnblockCidr { cidr: c, lpm_key: lpm_key_spec(c) }
    }
}

/// Blocking and unblocking an address use the same blocklist key, the one
/// `ipv4_to_key` gives: its octets a, b, c, d (network order) read in the
/// machine's byte order; likewise for CIDR blocks and their LPM key, which
/// keeps the prefix length.
pub proof fn lemma_block_unblock_same_key(a: Ipv4, c: Cidr)
    ensures
        a.octets() == seq![a.a, a.b, a.c, a.d],
        ip_op(a, true) matches RuleOp::BlockIp { addr, key } && addr == a && key == ne_u32(
            seq![a.a, a.b, a.c, a.d],
        ),
        ip_op(a, false) matches RuleOp::UnblockIp { addr, key } && addr == a && key == ne_u32(
            seq![a.a, a.b, a.c, a.d],
        ),
        cidr_op(c, true) matches RuleOp::BlockCidr { cidr, lpm_key } && cidr == c
            && lpm_key.prefixlen == c.prefix_len && lpm_key.addr == ne_u32(
            seq![c.addr.a, c.addr.b, c.addr.c, c.addr.d],
        ),
        cidr_op(c, false) matches RuleOp::UnblockCidr { cidr, lpm_key } && cidr == c
            && lpm_key.prefixlen == c.prefix_len && lpm_key.addr == ne_u32(
            seq![c.addr.a, c.addr.b, c.addr.c, c.addr.d],
        ),
{
    assert(a.octets() =~= seq![a.a, a.b, a.c, a.d]);
    assert(c.addr.octets() =~= seq![c.addr.a, c.addr.b, c.addr.c, c.addr.d]);
    assert(0 <= ne_u32(a.octets()) <= u32::MAX) by {
        crate::bytes::lemma_ne_u32_bound(a.octets());
    }
    assert(0 <= ne_u32(c.addr.octets()) <= u32::MAX) by {
        crate::bytes::lemma_ne_u32_bound(c.addr.octets());
    }
}

/// The change for an address text, or `None` where it does not parse.
fn ip_text_op(ip: &str, block: bool) -> (r: Option<RuleOp>)
    ensures
        match ipv4_spec(ip.spec_bytes()) {
            Some(a) => r == Some(ip_op(a, block)),
            None => r is None,
        },
{
    match parse_ipv4(ip) {
        Some(a) => {
            let key = ipv4_key(&a);
            if block {
                Some(RuleOp::BlockIp { addr: a, key })
            } else {
                Some(RuleOp::UnblockIp { addr: a, key })
            }
        },
        None => None,
    }
}

/// The change for a CIDR text, or `None` where it does not parse.
fn cidr_text_op(cidr: &str, block: bool) -> (r: Option<RuleOp>)
    ensures
        match cidr_spec(cidr.spec_bytes()) {
            Ok(c) => r == Some(cidr_op(c, block)),
            Err(_) => r is None,
        },
{
    match parse_cidr_block(cidr) {
        Ok(c) => {
            let lpm_key = lpm_key(&c);
            if block {
                Some(RuleOp::BlockCidr { cidr: c, lpm_key })
            } else {
                Some(RuleOp::UnblockCidr { cidr: c, lpm_key })
            }
        },
        Err(_) => None,
    }
}

/// The change that blocking the address `ip` makes; an address that does
/// not parse is a bad request. The address recorded prints back as `ip`.
pub fn block_ip(ip: &str) -> (r: Result<RuleOp, ApiError>)
    ensures
        match ipv4_spec(ip.spec_bytes()) {
            Some(a) => r == Ok::<RuleOp, ApiError>(ip_op(a, true)) && ipv4_text(a) == ip@,
            None => r == Err::<RuleOp, ApiError>(ApiError::BadRequest),
        },
{
    proof {
        if ipv4_spec(ip.spec_bytes()) is Some {
            lemma_ipv4_text_is_input(ip@);
        }
    }
    match ip_text_op(ip, true) {
        Some(op) => Ok(op),
        None => Err(ApiError::BadRequest),
    }
}

/// The change that unblocking the address `ip` makes; an address that does
/// not parse is a bad request. The address removed prints back as `ip`.
pub fn unblock_ip(ip: &str) -> (r: Result<RuleOp, ApiError>)
    ensures
        match ipv4_spec(ip.spec_bytes()) {
            Some(a) => r == Ok::<RuleOp, ApiError>(ip_op(a, false)) && ipv4_text(a) == ip@,
            None => r == Err::<RuleOp, ApiError>(ApiError::BadRequest),
        },
{
    proof {
        if ipv4_spec(ip.spec_bytes()) is Some {
            lemma_ipv4_text_is_input(ip@);
        }
    }
    match ip_text_op(ip, false) {
        Some(op) => Ok(op),
        None => Err(ApiError::BadRequest),
    }
}

/// The change that blocking the CIDR block `cidr` makes; a text that is
/// not a CIDR block is a bad request.
pub fn block_cidr(cidr: &str) -> (r: Result<RuleOp, ApiError>)
    ensures
        match cidr_spec(cidr.spec_bytes()) {
            Ok(c) => r == Ok::<RuleOp, ApiError>(cidr_op(c, true)),
            Err(_) => r == Err::<RuleOp, ApiError>(ApiError::BadRequest),
        },
{
    match cidr_text_op(cidr, true) {
        Some(op) => Ok(op),
        None => Err(ApiError::BadRequest),
    }
}

/// The change that unblocking the CIDR block `cidr` makes; a text that is
/// not a CIDR block is a bad request.
pub fn unblock_cidr(cidr: &str) -> (r: Result<RuleOp, ApiError>)
    ensures
        match cidr_spec(cidr.spec_bytes()) {
            Ok(c) => r == Ok::<RuleOp, ApiError>(cidr_op(c, false)),
            Err(_) => r == Err::<RuleOp, ApiError>(ApiError::BadRequest),
        },
{
    match cidr_text_op(cidr, false) {
        Some(op) => Ok(op),
        None => Err(ApiError::BadRequest),
    }
}

/// The change that setting the TCP signature switches makes, and the
/// switches reported back.
pub fn set_tcp_signatures(req: &TcpSignatureReq) -> (r: (RuleOp, TcpSignatureResp))
    ensures
        r.0 == (RuleOp::SetTcpSignatures { signatures: *req }),
        r.1 == (TcpSignatureResp {
            block_null_scan: req.block_null_scan,
            block_xmas_scan: req.block_xmas_scan,
        }),
{
    (
        RuleOp::SetTcpSignatures { signatures: *req },
        TcpSignatureResp {
            block_null_scan: req.block_null_scan,
            block_xmas_scan: req.block_xmas_scan,
        },
    )
}


/// The texts of a vector of strings.
pub open spec fn strings(v: Seq<String>) -> Seq<Seq<char>> {
    v.map_values(|s: String| s@)
}

/// A snapshot of the rules as reported: the epoch, the blocked addresses
/// and CIDR blocks as sorted texts, and the TCP signature switches.
pub struct RulesConfigResp {
    pub epoch: u64,
    pub blocked_ips: Vec<String>,
    pub blocked_cidrs: Vec<String>,
    pub tcp_signatures: TcpSignatureResp,
}

/// Strings holding the given texts, in the same order.
fn to_strings(v: &Vec<Vec<char>>) -> (r: Vec<String>)
    ensures
        strings(r@) == texts(v@),
{
    let mut r: Vec<String> = Vec::new();
    let mut k: usize = 0;
    while k < v.len()
        invariant
            k <= v@.len(),
            strings(r@) =~= texts(v@).take(k as int),
        decreases v@.len() - k,
    {
        let st = string_from_chars(&v[k]);
        let ghost before = r@;
        r.push(st);
        assert(r@ == before.push(st));
        assert(strings(r@) =~= strings(before).push(st@));
        assert(texts(v@).take(k + 1) =~= texts(v@).take(k as int).push(v@[k as int]@));
        assert(strings(r@) =~= texts(v@).take(k + 1));
        k += 1;
    }
    assert(texts(v@).take(k as int) =~= texts(v@));
    r
}

/// The texts of the addresses in `v`, sorted and without repeats.
fn sorted_ip_texts(v: &Vec<Ipv4>) -> (r: Vec<String>)
    ensures
        strictly_sorted(strings(r@)),
        forall|t: Seq<char>|
            strings(r@).contains(t) <==> exists|a: Ipv4| v@.contains(a) && ipv4_text(a) == t,
{
    let mut acc: Vec<Vec<char>> = Vec::new();
    let mut i: usize = 0;
    while i < v.len()
        invariant
            i <= v@.len(),
            strictly_sorted(texts(acc@)),
            forall|t: Seq<char>|
                texts(acc@).contains(t) <==> exists|j: int| 0 <= j < i && ipv4_text(v@[j]) == t,
        decreases v@.len() - i,
    {
        let mut t: Vec<char> = Vec::new();
        push_ipv4_text(&mut t, &v[i]);
        assert(t@ =~= ipv4_text(v@[i as int]));
        let ghost before = texts(acc@);
        insert_sorted(&mut acc, t);
        assert forall|u: Seq<char>|
            texts(acc@).contains(u) <==> exists|j: int| 0 <= j < i + 1 && ipv4_text(v@[j]) == u by {
            if u == ipv4_text(v@[i as int]) {
                assert(exists|j: int| 0 <= j < i + 1 && ipv4_text(v@[j]) == u);
            }
            if exists|j: int| 0 <= j < i + 1 && ipv4_text(v@[j]) == u {
                let j = choose|j: int| 0 <= j < i + 1 && ipv4_text(v@[j]) == u;
                if j < i {
                    assert(before.contains(u));
                }
            }
        }
        i += 1;
    }
    assert(v@.len() == i);
    assert forall|u: Seq<char>|
        #[trigger] texts(acc@).contains(u) <==> exists|a: Ipv4|
            v@.contains(a) && ipv4_text(a) == u by {
        if exists|a: Ipv4| v@.contains(a) && ipv4_text(a) == u {
            let a = choose|a: Ipv4| v@.contains(a) && ipv4_text(a) == u;
            let j = choose|j: int| 0 <= j < v@.len() && v@[j] == a;
            assert(ipv4_text(v@[j]) == u);
        }
        if exists|j: int| 0 <= j < v@.len() && ipv4_text(v@[j]) == u {
            let j = choose|j: int| 0 <= j < v@.len() && ipv4_text(v@[j]) == u;
            assert(v@.contains(v@[j]));
        }
    }
    to_strings(&acc)
}

/// The canonical texts of the CIDR blocks in `v`, sorted and without repeats.
fn sorted_cidr_texts(v: &Vec<Cidr>) -> (r: Vec<String>)
    ensures
        strictly_sorted(strings(r@)),
        forall|t: Seq<char>|
            strings(r@).contains(t) <==> exists|c: Cidr| v@.contains(c) && cidr_text(c) == t,
{
    let mut acc: Vec<Vec<char>> = Vec::new();
    let mut i: usize = 0;
    while i < v.len()
        invariant
            i <= v@.len(),
            strictly_sorted(texts(acc@)),
            forall|t: Seq<char>|
                texts(acc@).contains(t) <==> exists|j: int| 0 <= j < i && cidr_text(v@[j]) == t,
        decreases v@.len() - i,
    {
        let mut t: Vec<char> = Vec::new();
        push_cidr_text(&mut t, &v[i]);
        assert(t@ =~= cidr_text(v@[i as int]));
        let ghost before = texts(acc@);
        insert_sorted(&mut acc, t);
        assert forall|u: Seq<char>|
            texts(acc@).contains(u) <==> exists|j: int| 0 <= j < i + 1 && cidr_text(v@[j]) == u by {
            if u == cidr_text(v@[i as int]) {
                assert(exists|j: int| 0 <= j < i + 1 && cidr_text(v@[j]) == u);
            }
            if exists|j: int| 0 <= j < i + 1 && cidr_text(v@[j]) == u {
                let j = choose|j: int| 0 <= j < i + 1 && cidr_text(v@[j]) == u;
                if j < i {
                    assert(before.contains(u));
                }
            }
        }
        i += 1;
    }
    assert(v@.len() == i);
    assert forall|u: Seq<char>|
        #[trigger] texts(acc@).contains(u) <==> exists|c: Cidr|
            v@.contains(c) && cidr_text(c) == u by {
        if exists|c: Cidr| v@.contains(c) && cidr_text(c) == u {
            let c = choose|c: Cidr| v@.contains(c) && cidr_text(c) == u;
            let j = choose|j: int| 0 <= j < v@.len() && v@[j] == c;
            assert(cidr_text(v@[j]) == u);
        }
        if exists|j: int| 0 <= j < v@.len() && cidr_text(v@[j]) == u {
            let j = choose|j: int| 0 <= j < v@.len() && cidr_text(v@[j]) == u;
            assert(v@.contains(v@[j]));
        }
    }
    to_strings(&acc)
}

impl RuleStore {
    /// The rules as reported: the blocked addresses and CIDR blocks as
    /// texts in string order, each once.
    pub fn get_rules_config(&self) -> (r: RulesConfigResp)
        ensures
            r.epoch == self@.epoch,
            strictly_sorted(strings(r.blocked_ips@)),
            forall|t: Seq<char>|
                strings(r.blocked_ips@).contains(t) <==> exists|a: Ipv4|
                    self@.blocked_ips.contains(a) && ipv4_text(a) == t,
            strictly_sorted(strings(r.blocked_cidrs@)),
            forall|t: Seq<char>|
                strings(r.blocked_cidrs@).contains(t) <==> exists|c: Cidr|
                    self@.blocked_cidrs.contains(c) && cidr_text(c) == t,
            r.tcp_signatures.block_null_scan == self@.tcp_signatures.block_null_scan,
            r.tcp_signatures.block_xmas_scan == self@.tcp_signatures.block_xmas_scan,
    {
        RulesConfigResp {
            epoch: self.epoch,
            blocked_ips: sorted_ip_texts(&self.blocked_ips),
            blocked_cidrs: sorted_cidr_texts(&self.blocked_cidrs),
            tcp_signatures: TcpSignatureResp {
                block_null_scan: self.tcp_signatures.block_null_scan,
                block_xmas_scan: self.tcp_signatures.block_xmas_scan,
            },
        }
    }
}


/// At most this many address updates (additions and removals together) in
/// one batch.
pub const MAX_BATCH_IP_UPDATES: usize = 2048;

/// At most this many CIDR updates (additions and removals together) in one
/// batch.
pub const MAX_BATCH_CIDR_UPDATES: usize = 2048;

/// A batch of rule changes: addresses and CIDR blocks to add and to remove,
/// and optionally new TCP signature switches.
pub struct RulesBatchReq {
    pub add_ips: Vec<String>,
    pub remove_ips: Vec<String>,
    pub add_cidrs: Vec<String>,
    pub remove_cidrs: Vec<String>,
    pub tcp_signatures: Option<TcpSignatureReq>,
}

/// The changes for address texts, in order, up to the first text that does
/// not parse, and whether one did not.
pub open spec fn ip_ops(t: Seq<Seq<char>>, block: bool) -> (Seq<RuleOp>, bool)
    decreases t.len(),
{
    if t.len() == 0 {
        (Seq::empty(), false)
    } else {
        let prev = ip_ops(t.drop_last(), block);
        if prev.1 {
            prev
        } else {
            match ipv4_spec(encode_utf8(t.last())) {
                Some(a) => (prev.0.push(ip_op(a, block)), false),
                None => (prev.0, true),
            }
        }
    }
}

/// The changes for CIDR texts, in order, up to the first text that does
/// not parse, and whether one did not.
pub open spec fn cidr_ops(t: Seq<Seq<char>>, block: bool) -> (Seq<RuleOp>, bool)
    decreases t.len(),
{
    if t.len() == 0 {
        (Seq::empty(), false)
    } else {
        let prev = cidr_ops(t.drop_last(), block);
        if prev.1 {
            prev
        } else {
            match cidr_spec(encode_utf8(t.last())) {
                Ok(c) => (prev.0.push(cidr_op(c, block)), false),
                Err(_) => (prev.0, true),
            }
        }
    }
}

/// The change that new TCP signature switches, if any, make.
pub open spec fn tcp_ops(t: Option<TcpSignatureReq>) -> Seq<RuleOp> {
    match t {
        Some(sig) => seq![RuleOp::SetTcpSignatures { signatures: sig }],
        None => Seq::empty(),
    }
}

/// The changes a batch makes, in order (added addresses, removed addresses,
/// added CIDR blocks, removed CIDR blocks, TCP switches), and why it is
/// refused, if it is: a batch over the limits makes no change; one with an
/// entry that does not parse makes the changes before that entry. Run as a
/// `ChangeRun`, any change made is followed by an epoch bump, refused or not.
pub open spec fn batch_spec(req: RulesBatchReq) -> (Seq<RuleOp>, Option<ApiError>) {
    if req.add_ips@.len() + req.remove_ips@.len() > MAX_BATCH_IP_UPDATES
        || req.add_cidrs@.len() + req.remove_cidrs@.len() > MAX_BATCH_CIDR_UPDATES {
        (Seq::empty(), Some(ApiError::TooManyUpdates))
    } else {
        let a = ip_ops(strings(req.add_ips@), true);
        let r = ip_ops(strings(req.remove_ips@), false);
        let ac = cidr_ops(strings(req.add_cidrs@), true);
        let rc = cidr_ops(strings(req.remove_cidrs@), false);
        if a.1 {
            (a.0, Some(ApiError::BadRequest))
        } else if r.1 {
            (a.0 + r.0, Some(ApiError::BadRequest))
        } else if ac.1 {
            (a.0 + r.0 + ac.0, Some(ApiError::BadRequest))
        } else if rc.1 {
            (a.0 + r.0 + ac.0 + rc.0, Some(ApiError::BadRequest))
        } else {
            (a.0 + r.0 + ac.0 + rc.0 + tcp_ops(req.tcp_signatures), None)
        }
    }
}

/// The changes to make for a batch, in order, and why the batch is refused
/// after them, if it is.
pub struct BatchPlan {
    pub ops: Vec<RuleOp>,
    pub rejected: Option<ApiError>,
}

/// The changes for address texts, up to the first that does not parse.
fn ip_ops_exec(t: &Vec<String>, block: bool) -> (r: (Vec<RuleOp>, bool))
    ensures
        (r.0@, r.1) == ip_ops(strings(t@), block),
{
    let mut ops: Vec<RuleOp> = Vec::new();
    let mut bad = false;
    let mut i: usize = 0;
    assert(strings(t@).take(0) =~= Seq::<Seq<char>>::empty());
    while i < t.len()
        invariant
            i <= t@.len(),
            (ops@, bad) == ip_ops(strings(t@).take(i as int), block),
        decreases t@.len() - i,
    {
        assert(strings(t@).take(i + 1).drop_last() =~= strings(t@).take(i as int));
        assert(strings(t@).take(i + 1).last() == t@[i as int]@);
        if !bad {
            match ip_text_op(t[i].as_str(), block) {
                Some(op) => ops.push(op),
                None => {
                    bad = true;
                },
            }
        }
        i += 1;
    }
    assert(strings(t@).take(i as int) =~= strings(t@));
    (ops, bad)
}

/// The changes for CIDR texts, up to the first that does not parse.
fn cidr_ops_exec(t: &Vec<String>, block: bool) -> (r: (Vec<RuleOp>, bool))
    ensures
        (r.0@, r.1) == cidr_ops(strings(t@), block),
{
    let mut ops: Vec<RuleOp> = Vec::new();
    let mut bad = false;
    let mut i: usize = 0;
    assert(strings(t@).take(0) =~= Seq::<Seq<char>>::empty());
    while i < t.len()
        invariant
            i <= t@.len(),
            (ops@, bad) == cidr_ops(strings(t@).take(i as int), block),
        decreases t@.len() - i,
    {
        assert(strings(t@).take(i + 1).drop_last() =~= strings(t@).take(i as int));
        assert(strings(t@).take(i + 1).last() == t@[i as int]@);
        if !bad {
            match cidr_text_op(t[i].as_str(), block) {
                Some(op) => ops.push(op),
                None => {
                    bad = true;
                },
            }
        }
        i += 1;
    }
    assert(strings(t@).take(i as int) =~= strings(t@));
    (ops, bad)
}

/// Plans a batch: the changes to make, in order, and why the batch is
/// refused after them, if it is.
pub fn apply_rules_batch(req: &RulesBatchReq) -> (plan: BatchPlan)
    ensures
        (plan.ops@, plan.rejected) == batch_spec(*req),
{
    if req.add_ips.len() > MAX_BATCH_IP_UPDATES || req.remove_ips.len() > MAX_BATCH_IP_UPDATES
        - req.add_ips.len() || req.add_cidrs.len() > MAX_BATCH_CIDR_UPDATES
        || req.remove_cidrs.len() > MAX_BATCH_CIDR_UPDATES - req.add_cidrs.len() {
        return BatchPlan { ops: Vec::new(), rejected: Some(ApiError::TooManyUpdates) };
    }
    let (mut ops, bad) = ip_ops_exec(&req.add_ips, true);
    if bad {
        return BatchPlan { ops, rejected: Some(ApiError::BadRequest) };
    }
    let (mut more, bad) = ip_ops_exec(&req.remove_ips, false);
    ops.append(&mut more);
    if bad {
        return BatchPlan { ops, rejected: Some(ApiError::BadRequest) };
    }
    let (mut more, bad) = cidr_ops_exec(&req.add_cidrs, true);
    ops.append(&mut more);
    if bad {
        return BatchPlan { ops, rejected: Some(ApiError::BadRequest) };
    }
    let (mut more, bad) = cidr_ops_exec(&req.remove_cidrs, false);
    ops.append(&mut more);
    if bad {
        return BatchPlan { ops, rejected: Some(ApiError::BadRequest) };
    }
    match req.tcp_signatures {
        Some(sig) => ops.push(RuleOp::SetTcpSignatures { signatures: sig }),
        None => {},
    }
    assert(ops@ =~= batch_spec(*req).0);
    BatchPlan { ops, rejected: None }
}


/// The addresses that the texts spell.
pub open spec fn ip_set(t: Seq<Seq<char>>) -> Set<Ipv4> {
    Set::new(|a: Ipv4| exists|i: int| 0 <= i < t.len() && ipv4_spec(encode_utf8(t[i])) == Some(a))
}

/// The CIDR blocks that the texts spell.
pub open spec fn cidr_set(t: Seq<Seq<char>>) -> Set<Cidr> {
    Set::new(
        |c: Cidr|
            exists|i: int|
                0 <= i < t.len() && cidr_spec(encode_utf8(t[i])) == Ok::<Cidr, CidrError>(c),
    )
}

/// Applying two runs of changes is applying the first, then the second.
pub proof fn lemma_apply_ops_append(s: RuleSnapshot, o1: Seq<RuleOp>, o2: Seq<RuleOp>)
    ensures
        apply_ops(s, o1 + o2) == apply_ops(apply_ops(s, o1), o2),
    decreases o2.len(),
{
    if o2.len() == 0 {
        assert(o1 + o2 =~= o1);
    } else {
        lemma_apply_ops_append(s, o1, o2.drop_last());
        assert((o1 + o2).drop_last() =~= o1 + o2.drop_last());
        assert((o1 + o2).last() == o2.last());
    }
}

/// The changes for address texts stop short exactly when one of the texts
/// does not parse.
pub proof fn lemma_ip_ops_refused(t: Seq<Seq<char>>, block: bool)
    ensures
        ip_ops(t, block).1 <==> exists|i: int|
            0 <= i < t.len() && ipv4_spec(encode_utf8(t[i])) is None,
    decreases t.len(),
{
    if t.len() > 0 {
        let u = t.drop_last();
        lemma_ip_ops_refused(u, block);
        if exists|i: int| 0 <= i < u.len() && ipv4_spec(encode_utf8(u[i])) is None {
            let i = choose|i: int| 0 <= i < u.len() && ipv4_spec(encode_utf8(u[i])) is None;
            assert(t[i] == u[i]);
        }
        if exists|i: int| 0 <= i < t.len() && ipv4_spec(encode_utf8(t[i])) is None {
            let i = choose|i: int| 0 <= i < t.len() && ipv4_spec(encode_utf8(t[i])) is None;
            if i < t.len() - 1 {
                assert(u[i] == t[i]);
            }
        }
    }
}

/// The changes for CIDR texts stop short exactly when one of the texts
/// does not parse.
pub proof fn lemma_cidr_ops_refused(t: Seq<Seq<char>>, block: bool)
    ensures
        cidr_ops(t, block).1 <==> exists|i: int|
            0 <= i < t.len() && cidr_spec(encode_utf8(t[i])) is Err,
    decreases t.len(),
{
    if t.len() > 0 {
        let u = t.drop_last();
        lemma_cidr_ops_refused(u, block);
        if exists|i: int| 0 <= i < u.len() && cidr_spec(encode_utf8(u[i])) is Err {
            let i = choose|i: int| 0 <= i < u.len() && cidr_spec(encode_utf8(u[i])) is Err;
            assert(t[i] == u[i]);
        }
        if exists|i: int| 0 <= i < t.len() && cidr_spec(encode_utf8(t[i])) is Err {
            let i = choose|i: int| 0 <= i < t.len() && cidr_spec(encode_utf8(t[i])) is Err;
            if i < t.len() - 1 {
                assert(u[i] == t[i]);
            }
        }
    }
}

/// Applying the changes for address texts that all parse blocks (or
/// unblocks) exactly the addresses they spell, and touches nothing else.
pub proof fn lemma_ip_ops_effect(s: RuleSnapshot, t: Seq<Seq<char>>, block: bool)
    requires
        !ip_ops(t, block).1,
    ensures
        apply_ops(s, ip_ops(t, block).0) == (RuleSnapshot {
            blocked_ips: if block {
                s.blocked_ips.union(ip_set(t))
            } else {
                s.blocked_ips.difference(ip_set(t))
            },
            ..s
        }),
    decreases t.len(),
{
    if t.len() == 0 {
        assert(ip_set(t) =~= Set::empty());
        assert(s.blocked_ips.union(ip_set(t)) =~= s.blocked_ips);
        assert(s.blocked_ips.difference(ip_set(t)) =~= s.blocked_ips);
    } else {
        let u = t.drop_last();
        let prev = ip_ops(u, block);
        let a = ipv4_spec(encode_utf8(t.last())).unwrap();
        lemma_ip_ops_effect(s, u, block);
        let ops = prev.0.push(ip_op(a, block));
        assert(ops.drop_last() =~= prev.0);
        assert forall|b: Ipv4| ip_set(t).contains(b) == (ip_set(u).contains(b) || b == a) by {
            if ip_set(t).contains(b) {
                let i = choose|i: int|
                    0 <= i < t.len() && ipv4_spec(encode_utf8(t[i])) == Some(b);
                if i < t.len() - 1 {
                    assert(u[i] == t[i]);
                }
            }
            if ip_set(u).contains(b) {
                let i = choose|i: int|
                    0 <= i < u.len() && ipv4_spec(encode_utf8(u[i])) == Some(b);
                assert(t[i] == u[i]);
            }
            if b == a {
                assert(ipv4_spec(encode_utf8(t[t.len() - 1])) == Some(b));
            }
        }
        assert(s.blocked_ips.union(ip_set(u)).insert(a) =~= s.blocked_ips.union(ip_set(t)));
        assert(s.blocked_ips.difference(ip_set(u)).remove(a) =~= s.blocked_ips.difference(
            ip_set(t),
        ));
    }
}

/// Applying the changes for CIDR texts that all parse blocks (or unblocks)
/// exactly the CIDR blocks they spell, and touches nothing else.
pub proof fn lemma_cidr_ops_effect(s: RuleSnapshot, t: Seq<Seq<char>>, block: bool)
    requires
        !cidr_ops(t, block).1,
    ensures
        apply_ops(s, cidr_ops(t, block).0) == (RuleSnapshot {
            blocked_cidrs: if block {
                s.blocked_cidrs.union(cidr_set(t))
            } else {
                s.blocked_cidrs.difference(cidr_set(t))
            },
            ..s
        }),
    decreases t.len(),
{
    if t.len() == 0 {
        assert(cidr_set(t) =~= Set::empty());
        assert(s.blocked_cidrs.union(cidr_set(t)) =~= s.blocked_cidrs);
        assert(s.blocked_cidrs.difference(cidr_set(t)) =~= s.blocked_cidrs);
    } else {
        let u = t.drop_last();
        let prev = cidr_ops(u, block);
        let c = cidr_spec(encode_utf8(t.last())).unwrap();
        lemma_cidr_ops_effect(s, u, block);
        let ops = prev.0.push(cidr_op(c, block));
        assert(ops.drop_last() =~= prev.0);
        assert forall|b: Cidr| cidr_set(t).contains(b) == (cidr_set(u).contains(b) || b == c) by {
            if cidr_set(t).contains(b) {
                let i = choose|i: int|
                    0 <= i < t.len() && cidr_spec(encode_utf8(t[i])) == Ok::<Cidr, CidrError>(b);
                if i < t.len() - 1 {
                    assert(u[i] == t[i]);
                }
            }
            if cidr_set(u).contains(b) {
                let i = choose|i: int|
                    0 <= i < u.len() && cidr_spec(encode_utf8(u[i])) == Ok::<Cidr, CidrError>(b);
                assert(t[i] == u[i]);
            }
            if b == c {
                assert(cidr_spec(encode_utf8(t[t.len() - 1])) == Ok::<Cidr, CidrError>(b));
            }
        }
        assert(s.blocked_cidrs.union(cidr_set(u)).insert(c) =~= s.blocked_cidrs.union(
            cidr_set(t),
        ));
        assert(s.blocked_cidrs.difference(cidr_set(u)).remove(c) =~= s.blocked_cidrs.difference(
            cidr_set(t),
        ));
    }
}

/// A batch that is not refused leaves blocked exactly the addresses and
/// CIDR blocks that were blocked or added and are not removed, sets the TCP
/// switches it gives (keeping them where it gives none), and leaves the
/// epoch to the bump that follows.
pub proof fn lemma_batch_applied(s: RuleSnapshot, req: RulesBatchReq)
    requires
        batch_spec(req).1 is None,
    ensures
        apply_ops(s, batch_spec(req).0) == (RuleSnapshot {
            epoch: s.epoch,
            blocked_ips: s.blocked_ips.union(ip_set(strings(req.add_ips@))).difference(
                ip_set(strings(req.remove_ips@)),
            ),
            blocked_cidrs: s.blocked_cidrs.union(cidr_set(strings(req.add_cidrs@))).difference(
                cidr_set(strings(req.remove_cidrs@)),
            ),
            tcp_signatures: match req.tcp_signatures {
                Some(t) => t,
                None => s.tcp_signatures,
            },
        }),
{
    let a = ip_ops(strings(req.add_ips@), true);
    let r = ip_ops(strings(req.remove_ips@), false);
    let ac = cidr_ops(strings(req.add_cidrs@), true);
    let rc = cidr_ops(strings(req.remove_cidrs@), false);
    let tc = tcp_ops(req.tcp_signatures);
    let o4 = a.0 + r.0 + ac.0 + rc.0;
    assert(batch_spec(req).0 == o4 + tc);
    lemma_ip_ops_effect(s, strings(req.add_ips@), true);
    let s1 = apply_ops(s, a.0);
    lemma_ip_ops_effect(s1, strings(req.remove_ips@), false);
    lemma_apply_ops_append(s, a.0, r.0);
    let s2 = apply_ops(s, a.0 + r.0);
    lemma_cidr_ops_effect(s2, strings(req.add_cidrs@), true);
    lemma_apply_ops_append(s, a.0 + r.0, ac.0);
    let s3 = apply_ops(s, a.0 + r.0 + ac.0);
    lemma_cidr_ops_effect(s3, strings(req.remove_cidrs@), false);
    lemma_apply_ops_append(s, a.0 + r.0 + ac.0, rc.0);
    let s4 = apply_ops(s, o4);
    lemma_apply_ops_append(s, o4, tc);
    match req.tcp_signatures {
        Some(t) => {
            assert(tc.drop_last() =~= Seq::<RuleOp>::empty());
            assert(apply_ops(s4, tc.drop_last()) == s4);
            assert(tc.last() == RuleOp::SetTcpSignatures { signatures: t });
            assert(apply_ops(s4, tc) == apply_op(s4, RuleOp::SetTcpSignatures { signatures: t }));
        },
        None => {
            assert(tc.len() == 0);
        },
    }
}

/// A batch is refused as too large exactly when it holds more address or
/// CIDR updates than the limits, and then makes no change; it is refused as
/// a bad request exactly when it is within the limits and one of its
/// entries does not parse.
pub proof fn lemma_batch_refused(req: RulesBatchReq)
    ensures
        ({
            let over = req.add_ips@.len() + req.remove_ips@.len() > MAX_BATCH_IP_UPDATES
                || req.add_cidrs@.len() + req.remove_cidrs@.len() > MAX_BATCH_CIDR_UPDATES;
            let bad_entry = (exists|i: int|
                0 <= i < req.add_ips@.len() && ipv4_spec(encode_utf8(strings(req.add_ips@)[i])) is None)
                || (exists|i: int|
                0 <= i < req.remove_ips@.len() && ipv4_spec(encode_utf8(strings(req.remove_ips@)[i])) is None)
                || (exists|i: int|
                0 <= i < req.add_cidrs@.len() && cidr_spec(encode_utf8(strings(req.add_cidrs@)[i])) is Err)
                || (exists|i: int|
                0 <= i < req.remove_cidrs@.len() && cidr_spec(
                    encode_utf8(strings(req.remove_cidrs@)[i]),
                ) is Err);
            &&& (batch_spec(req).1 == Some(ApiError::TooManyUpdates)) == over
            &&& over ==> batch_spec(req).0.len() == 0
            &&& (batch_spec(req).1 == Some(ApiError::BadRequest)) == (!over && bad_entry)
        }),
{
    lemma_ip_ops_refused(strings(req.add_ips@), true);
    lemma_ip_ops_refused(strings(req.remove_ips@), false);
    lemma_cidr_ops_refused(strings(req.add_cidrs@), true);
    lemma_cidr_ops_refused(strings(req.remove_cidrs@), false);
}

/// Blocking records the address (once, however often it is blocked), and
/// unblocking it afterwards removes it; the same holds of CIDR blocks.
pub proof fn lemma_block_unblock(s: RuleSnapshot, a: Ipv4, c: Cidr)
    ensures
        apply_op(s, ip_op(a, true)).blocked_ips.contains(a),
        apply_op(apply_op(s, ip_op(a, true)), ip_op(a, true)) == apply_op(s, ip_op(a, true)),
        apply_op(apply_op(s, ip_op(a, true)), ip_op(a, false)).blocked_ips == s.blocked_ips.remove(a),
        !apply_op(s, ip_op(a, false)).blocked_ips.contains(a),
        apply_op(s, cidr_op(c, true)).blocked_cidrs.contains(c),
        apply_op(apply_op(s, cidr_op(c, true)), cidr_op(c, true)) == apply_op(s, cidr_op(c, true)),
        apply_op(apply_op(s, cidr_op(c, true)), cidr_op(c, false)).blocked_cidrs
            == s.blocked_cidrs.remove(c),
        !apply_op(s, cidr_op(c, false)).blocked_cidrs.contains(c),
{
    assert(s.blocked_ips.insert(a).insert(a) =~= s.blocked_ips.insert(a));
    assert(s.blocked_ips.insert(a).remove(a) =~= s.blocked_ips.remove(a));
    assert(s.blocked_cidrs.insert(c).insert(c) =~= s.blocked_cidrs.insert(c));
    assert(s.blocked_cidrs.insert(c).remove(c) =~= s.blocked_cidrs.remove(c));
}


/// The changes for address texts are one per text, in order, up to the
/// first text `k` that does not parse, and none after it.
pub proof fn lemma_ip_ops_entries(t: Seq<Seq<char>>, block: bool, k: int)
    requires
        0 <= k <= t.len(),
        forall|j: int| 0 <= j < k ==> ipv4_spec(encode_utf8(t[j])) is Some,
        k < t.len() ==> ipv4_spec(encode_utf8(t[k])) is None,
    ensures
        ip_ops(t, block).1 == (k < t.len()),
        ip_ops(t, block).0.len() == k,
        forall|j: int|
            0 <= j < k ==> ip_ops(t, block).0[j] == ip_op(ipv4_spec(encode_utf8(t[j])).unwrap(), block),
    decreases t.len(),
{
    if t.len() > 0 {
        let u = t.drop_last();
        if k == t.len() {
            assert forall|j: int| 0 <= j < u.len() implies ipv4_spec(encode_utf8(u[j])) is Some by {
                assert(u[j] == t[j]);
            }
            lemma_ip_ops_entries(u, block, u.len() as int);
            assert(t.last() == t[t.len() - 1]);
            assert forall|j: int| 0 <= j < k implies ip_ops(t, block).0[j] == ip_op(
                ipv4_spec(encode_utf8(t[j])).unwrap(),
                block,
            ) by {
                if j < u.len() {
                    assert(u[j] == t[j]);
                }
            }
        } else {
            assert forall|j: int| 0 <= j < k implies ipv4_spec(encode_utf8(u[j])) is Some by {
                assert(u[j] == t[j]);
            }
            if k < u.len() {
                assert(u[k] == t[k]);
            } else {
                assert(t.last() == t[k]);
            }
            lemma_ip_ops_entries(u, block, k);
            assert forall|j: int| 0 <= j < k implies ip_ops(t, block).0[j] == ip_op(
                ipv4_spec(encode_utf8(t[j])).unwrap(),
                block,
            ) by {
                assert(u[j] == t[j]);
            }
        }
    }
}

/// The changes for CIDR texts are one per text, in order, up to the first
/// text `k` that does not parse, and none after it.
pub proof fn lemma_cidr_ops_entries(t: Seq<Seq<char>>, block: bool, k: int)
    requires
        0 <= k <= t.len(),
        forall|j: int| 0 <= j < k ==> cidr_spec(encode_utf8(t[j])) is Ok,
        k < t.len() ==> cidr_spec(encode_utf8(t[k])) is Err,
    ensures
        cidr_ops(t, block).1 == (k < t.len()),
        cidr_ops(t, block).0.len() == k,
        forall|j: int|
            0 <= j < k ==> cidr_ops(t, block).0[j] == cidr_op(
                cidr_spec(encode_utf8(t[j])).unwrap(),
                block,
            ),
    decreases t.len(),
{
    if t.len() > 0 {
        let u = t.drop_last();
        if k == t.len() {
            assert forall|j: int| 0 <= j < u.len() implies cidr_spec(encode_utf8(u[j])) is Ok by {
                assert(u[j] == t[j]);
            }
            lemma_cidr_ops_entries(u, block, u.len() as int);
            assert(t.last() == t[t.len() - 1]);
            assert forall|j: int| 0 <= j < k implies cidr_ops(t, block).0[j] == cidr_op(
                cidr_spec(encode_utf8(t[j])).unwrap(),
                block,
            ) by {
                if j < u.len() {
                    assert(u[j] == t[j]);
                }
            }
        } else {
            assert forall|j: int| 0 <= j < k implies cidr_spec(encode_utf8(u[j])) is Ok by {
                assert(u[j] == t[j]);
            }
            if k < u.len() {
                assert(u[k] == t[k]);
            } else {
                assert(t.last() == t[k]);
            }
            lemma_cidr_ops_entries(u, block, k);
            assert forall|j: int| 0 <= j < k implies cidr_ops(t, block).0[j] == cidr_op(
                cidr_spec(encode_utf8(t[j])).unwrap(),
                block,
            ) by {
                assert(u[j] == t[j]);
            }
        }
    }
}

/// Whether a batch is within the update limits.
pub open spec fn within_limits(req: RulesBatchReq) -> bool {
    req.add_ips@.len() + req.remove_ips@.len() <= MAX_BATCH_IP_UPDATES
        && req.add_cidrs@.len() + req.remove_cidrs@.len() <= MAX_BATCH_CIDR_UPDATES
}

/// A batch whose added address `k` is the first entry that does not parse
/// is refused as a bad request after blocking exactly the added addresses
/// before `k`, in order: no removal, nothing after `k`.
pub proof fn lemma_batch_bad_added_ip(req: RulesBatchReq, k: int)
    requires
        within_limits(req),
        0 <= k < req.add_ips@.len(),
        forall|j: int| 0 <= j < k ==> ipv4_spec(encode_utf8(req.add_ips@[j]@)) is Some,
        ipv4_spec(encode_utf8(req.add_ips@[k]@)) is None,
    ensures
        batch_spec(req).1 == Some(ApiError::BadRequest),
        batch_spec(req).0.len() == k,
        forall|j: int|
            0 <= j < k ==> batch_spec(req).0[j] == ip_op(
                ipv4_spec(encode_utf8(req.add_ips@[j]@)).unwrap(),
                true,
            ),
{
    let t = strings(req.add_ips@);
    assert forall|j: int| 0 <= j < t.len() implies t[j] == req.add_ips@[j]@ by {}
    lemma_ip_ops_entries(t, true, k);
}

/// A batch whose added addresses all parse and whose removed address `k`
/// is the first entry that does not parse is refused as a bad request after
/// blocking every added address and then unblocking exactly the removed
/// addresses before `k`, in order; no CIDR change is made.
pub proof fn lemma_batch_bad_removed_ip(req: RulesBatchReq, k: int)
    requires
        within_limits(req),
        forall|j: int|
            0 <= j < req.add_ips@.len() ==> ipv4_spec(encode_utf8(req.add_ips@[j]@)) is Some,
        0 <= k < req.remove_ips@.len(),
        forall|j: int| 0 <= j < k ==> ipv4_spec(encode_utf8(req.remove_ips@[j]@)) is Some,
        ipv4_spec(encode_utf8(req.remove_ips@[k]@)) is None,
    ensures
        batch_spec(req).1 == Some(ApiError::BadRequest),
        batch_spec(req).0.len() == req.add_ips@.len() + k,
        forall|j: int|
            0 <= j < req.add_ips@.len() ==> batch_spec(req).0[j] == ip_op(
                ipv4_spec(encode_utf8(req.add_ips@[j]@)).unwrap(),
                true,
            ),
        forall|j: int|
            0 <= j < k ==> batch_spec(req).0[req.add_ips@.len() + j] == ip_op(
                ipv4_spec(encode_utf8(req.remove_ips@[j]@)).unwrap(),
                false,
            ),
{
    let ta = strings(req.add_ips@);
    let tr = strings(req.remove_ips@);
    assert forall|j: int| 0 <= j < ta.len() implies ta[j] == req.add_ips@[j]@ by {}
    assert forall|j: int| 0 <= j < tr.len() implies tr[j] == req.remove_ips@[j]@ by {}
    lemma_ip_ops_entries(ta, true, ta.len() as int);
    lemma_ip_ops_entries(tr, false, k);
    let a = ip_ops(ta, true);
    let r = ip_ops(tr, false);
    assert forall|j: int| 0 <= j < k implies (a.0 + r.0)[a.0.len() + j] == r.0[j] by {}
}

/// A batch whose addresses all parse and whose added CIDR block `k` is the
/// first entry that does not parse is refused as a bad request after the
/// address changes and then blocking exactly the added blocks before `k`,
/// in order; no block is removed.
pub proof fn lemma_batch_bad_added_cidr(req: RulesBatchReq, k: int)
    requires
        within_limits(req),
        forall|j: int|
            0 <= j < req.add_ips@.len() ==> ipv4_spec(encode_utf8(req.add_ips@[j]@)) is Some,
        forall|j: int|
            0 <= j < req.remove_ips@.len() ==> ipv4_spec(encode_utf8(req.remove_ips@[j]@)) is Some,
        0 <= k < req.add_cidrs@.len(),
        forall|j: int| 0 <= j < k ==> cidr_spec(encode_utf8(req.add_cidrs@[j]@)) is Ok,
        cidr_spec(encode_utf8(req.add_cidrs@[k]@)) is Err,
    ensures
        batch_spec(req).1 == Some(ApiError::BadRequest),
        batch_spec(req).0.len() == req.add_ips@.len() + req.remove_ips@.len() + k,
        forall|j: int|
            0 <= j < k ==> batch_spec(req).0[req.add_ips@.len() + req.remove_ips@.len() + j]
                == cidr_op(cidr_spec(encode_utf8(req.add_cidrs@[j]@)).unwrap(), true),
{
    let ta = strings(req.add_ips@);
    let tr = strings(req.remove_ips@);
    let tc = strings(req.add_cidrs@);
    assert forall|j: int| 0 <= j < ta.len() implies ta[j] == req.add_ips@[j]@ by {}
    assert forall|j: int| 0 <= j < tr.len() implies tr[j] == req.remove_ips@[j]@ by {}
    assert forall|j: int| 0 <= j < tc.len() implies tc[j] == req.add_cidrs@[j]@ by {}
    lemma_ip_ops_entries(ta, true, ta.len() as int);
    lemma_ip_ops_entries(tr, false, tr.len() as int);
    lemma_cidr_ops_entries(tc, true, k);
    let a = ip_ops(ta, true);
    let r = ip_ops(tr, false);
    let ac = cidr_ops(tc, true);
    assert forall|j: int| 0 <= j < k implies (a.0 + r.0 + ac.0)[a.0.len() + r.0.len() + j]
        == ac.0[j] by {}
}

/// A batch whose addresses and added CIDR blocks all parse and whose
/// removed CIDR block `k` is the first entry that does not parse is refused
/// as a bad request after the other changes and then unblocking exactly the
/// removed blocks before `k`; the TCP switches are not set.
pub proof fn lemma_batch_bad_removed_cidr(req: RulesBatchReq, k: int)
    requires
        within_limits(req),
        forall|j: int|
            0 <= j < req.add_ips@.len() ==> ipv4_spec(encode_utf8(req.add_ips@[j]@)) is Some,
        forall|j: int|
            0 <= j < req.remove_ips@.len() ==> ipv4_spec(encode_utf8(req.remove_ips@[j]@)) is Some,
        forall|j: int|
            0 <= j < req.add_cidrs@.len() ==> cidr_spec(encode_utf8(req.add_cidrs@[j]@)) is Ok,
        0 <= k < req.remove_cidrs@.len(),
        forall|j: int| 0 <= j < k ==> cidr_spec(encode_utf8(req.remove_cidrs@[j]@)) is Ok,
        cidr_spec(encode_utf8(req.remove_cidrs@[k]@)) is Err,
    ensures
        batch_spec(req).1 == Some(ApiError::BadRequest),
        batch_spec(req).0.len() == req.add_ips@.len() + req.remove_ips@.len()
            + req.add_cidrs@.len() + k,
        forall|j: int|
            0 <= j < k ==> batch_spec(req).0[req.add_ips@.len() + req.remove_ips@.len()
                + req.add_cidrs@.len() + j] == cidr_op(
                cidr_spec(encode_utf8(req.remove_cidrs@[j]@)).unwrap(),
                false,
            ),
{
    let ta = strings(req.add_ips@);
    let tr = strings(req.remove_ips@);
    let tc = strings(req.add_cidrs@);
    let td = strings(req.remove_cidrs@);
    assert forall|j: int| 0 <= j < ta.len() implies ta[j] == req.add_ips@[j]@ by {}
    assert forall|j: int| 0 <= j < tr.len() implies tr[j] == req.remove_ips@[j]@ by {}
    assert forall|j: int| 0 <= j < tc.len() implies tc[j] == req.add_cidrs@[j]@ by {}
    assert forall|j: int| 0 <= j < td.len() implies td[j] == req.remove_cidrs@[j]@ by {}
    lemma_ip_ops_entries(ta, true, ta.len() as int);
    lemma_ip_ops_entries(tr, false, tr.len() as int);
    lemma_cidr_ops_entries(tc, true, tc.len() as int);
    lemma_cidr_ops_entries(td, false, k);
    let a = ip_ops(ta, true);
    let r = ip_ops(tr, false);
    let ac = cidr_ops(tc, true);
    let rc = cidr_ops(td, false);
    assert forall|j: int| 0 <= j < k implies (a.0 + r.0 + ac.0 + rc.0)[a.0.len() + r.0.len()
        + ac.0.len() + j] == rc.0[j] by {}
}

} // verus!
