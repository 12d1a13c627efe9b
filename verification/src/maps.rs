//! The values held in the kernel's configuration and counter maps: TCP
//! signature switches, the rules epoch, and the drop counters.

use vstd::prelude::*;
use crate::bytes::{ne_u64, u64_from_ne_bytes, u64_to_ne_bytes};

verus! {

/// Which TCP scan signatures the data plane drops.
#[derive(Clone, Copy, Debug, PartialEq, Eq, Structural)]
pub struct TcpSignatureReq {
    pub block_null_scan: bool,
    pub block_xmas_scan: bool,
}

/// The TCP signature switches as reported back.
#[derive(Clone, Copy, Debug, PartialEq, Eq, Structural)]
pub struct TcpSignatureResp {
    pub block_null_scan: bool,
    pub block_xmas_scan: bool,
}

/// The value of the TCP signature map: one byte per switch, then padding.
#[derive(Clone, Copy, Debug)]
pub struct TcpSignatureCfg {
    pub block_null_scan: u8,
    pub block_xmas_scan: u8,
    pub pad: [u8; 6],
}

/// The byte that stores a switch: 1 when on, 0 when off.
pub open spec fn flag_byte(on: bool) -> u8 {
    if on {
        1
    } else {
        0
    }
}

/// The eight bytes of the map value that stores the switches of `req`.
pub open spec fn tcp_signature_bytes(req: TcpSignatureReq) -> Seq<u8> {
    seq![flag_byte(req.block_null_scan), flag_byte(req.block_xmas_scan), 0u8, 0u8, 0u8, 0u8, 0u8, 0u8]
}

/// The switches that a stored map value holds: a byte other than 0 is on.
pub open spec fn tcp_signature_of(raw: Seq<u8>) -> TcpSignatureResp {
    TcpSignatureResp { block_null_scan: raw[0] != 0, block_xmas_scan: raw[1] != 0 }
}

/// The map value that stores the switches of `req`.
pub fn set_tcp_signature_cfg(req: &TcpSignatureReq) -> (cfg: TcpSignatureCfg)
    ensures
        cfg.block_null_scan == flag_byte(req.block_null_scan),
        cfg.block_xmas_scan == flag_byte(req.block_xmas_scan),
        cfg.pad@ == seq![0u8, 0u8, 0u8, 0u8, 0u8, 0u8],
        seq![cfg.block_null_scan, cfg.block_xmas_scan] + cfg.pad@ == tcp_signature_bytes(*req),
{
    let cfg = TcpSignatureCfg {
        block_null_scan: if req.block_null_scan {
            1
        } else {
            0
        },
        block_xmas_scan: if req.block_xmas_scan {
            1
        } else {
            0
        },
        pad: [0, 0, 0, 0, 0, 0],
    };
    assert(cfg.pad@ =~= seq![0u8, 0u8, 0u8, 0u8, 0u8, 0u8]);
    assert(seq![cfg.block_null_scan, cfg.block_xmas_scan] + cfg.pad@ =~= tcp_signature_bytes(*req));
    cfg
}

impl TcpSignatureCfg {
    /// The bytes of the value in the map's layout: the two switch bytes,
    /// then the padding.
    pub fn to_bytes(&self) -> (b: Vec<u8>)
        ensures
            b@ == seq![self.block_null_scan, self.block_xmas_scan] + self.pad@,
    {
        let b = vec![
            self.block_null_scan,
            self.block_xmas_scan,
            self.pad[0],
            self.pad[1],
            self.pad[2],
            self.pad[3],
            self.pad[4],
            self.pad[5],
        ];
        assert(b@ =~= seq![self.block_null_scan, self.block_xmas_scan] + self.pad@);
        b
    }
}

/// The switches that a value read from the TCP signature map holds.
pub fn read_tcp_signature_cfg(raw: &[u8]) -> (r: TcpSignatureResp)
    requires
        raw@.len() == 8,
    ensures
        r == tcp_signature_of(raw@),
{
    TcpSignatureResp { block_null_scan: raw[0] != 0, block_xmas_scan: raw[1] != 0 }
}

/// Reading back the value written for `req` gives `req`'s switches.
pub proof fn lemma_tcp_signature_roundtrip(req: TcpSignatureReq)
    ensures
        tcp_signature_bytes(req).len() == 8,
        tcp_signature_bytes(req)[0] == (if req.block_null_scan { 1u8 } else { 0u8 }),
        tcp_signature_bytes(req)[1] == (if req.block_xmas_scan { 1u8 } else { 0u8 }),
        forall|i: int| 2 <= i < 8 ==> tcp_signature_bytes(req)[i] == 0,
        forall|raw: Seq<u8>|
            raw.len() == 8 ==> (tcp_signature_of(raw).block_null_scan <==> raw[0] != 0) && (
            tcp_signature_of(raw).block_xmas_scan <==> raw[1] != 0),
        tcp_signature_of(tcp_signature_bytes(req)).block_null_scan == req.block_null_scan,
        tcp_signature_of(tcp_signature_bytes(req)).block_xmas_scan == req.block_xmas_scan,
{
}

/// The eight bytes of `raw` as an array.
fn eight_bytes(raw: &[u8]) -> (a: [u8; 8])
    requires
        raw@.len() == 8,
    ensures
        a@ == raw@,
{
    let a = [raw[0], raw[1], raw[2], raw[3], raw[4], raw[5], raw[6], raw[7]];
    assert(a@ =~= raw@);
    a
}

/// A 64-bit counter stored in eight bytes in the machine's byte order.
fn read_counter(raw: &[u8]) -> (v: u64)
    requires
        raw@.len() == 8,
    ensures
        v == ne_u64(raw@),
{
    u64_from_ne_bytes(eight_bytes(raw))
}

/// The epoch that a value read from the epoch map holds: its eight bytes
/// in the machine's byte order.
pub fn read_epoch(raw: &[u8]) -> (e: u64)
    requires
        raw@.len() == 8,
    ensures
        e == ne_u64(raw@),
{
    read_counter(raw)
}

/// The epoch that follows `current`, the stored epoch where it could be
/// read (0 where not): one more, saturating at `u64::MAX`.
pub open spec fn next_epoch_value(current: Option<u64>) -> u64 {
    let e = match current {
        Some(e) => e,
        None => 0,
    };
    if e < u64::MAX {
        (e + 1) as u64
    } else {
        u64::MAX
    }
}

/// The epoch to store after a rule change.
pub fn bump_epoch(current: Option<u64>) -> (next: u64)
    ensures
        next == next_epoch_value(current),
{
    current.unwrap_or(0).saturating_add(1)
}

/// The bytes of the epoch map value that stores `epoch`.
pub fn encode_epoch(epoch: u64) -> (b: Vec<u8>)
    ensures
        b@.len() == 8,
        ne_u64(b@) == epoch,
{
    let a = u64_to_ne_bytes(epoch);
    let b = vec![a[0], a[1], a[2], a[3], a[4], a[5], a[6], a[7]];
    assert(b@ =~= a@);
    b
}

/// The epoch only grows: each bump gives one more than the stored epoch,
/// and stays put only at `u64::MAX`.
pub proof fn lemma_epoch_monotone(e: u64)
    ensures
        next_epoch_value(Some(e)) >= e,
        e < u64::MAX ==> next_epoch_value(Some(e)) == e + 1,
        next_epoch_value(None) == 1,
{
}

/// The rate limiter's configuration: packets per second (0 turns it off)
/// and the burst allowed (0 means the rate).
#[derive(Clone, Copy, Debug, PartialEq, Eq, Structural)]
pub struct RateLimitCfg {
    pub rate_per_sec: u64,
    pub burst: u64,
}

impl RateLimitCfg {
    /// The value in the map's layout: the rate, then the burst, each as
    /// eight bytes in the machine's byte order.
    pub fn to_bytes(&self) -> (b: Vec<u8>)
        ensures
            b@.len() == 16,
            ne_u64(b@.subrange(0, 8)) == self.rate_per_sec,
            ne_u64(b@.subrange(8, 16)) == self.burst,
    {
        let r = u64_to_ne_bytes(self.rate_per_sec);
        let u = u64_to_ne_bytes(self.burst);
        let b = vec![
            r[0], r[1], r[2], r[3], r[4], r[5], r[6], r[7],
            u[0], u[1], u[2], u[3], u[4], u[5], u[6], u[7],
        ];
        assert(b@.subrange(0, 8) =~= r@);
        assert(b@.subrange(8, 16) =~= u@);
        b
    }
}

/// The drop and pass counters of the data plane.
#[derive(Clone, Copy, Debug, PartialEq, Eq, Structural)]
pub struct Stats {
    pub pass: u64,
    pub drop_block_ip: u64,
    pub drop_block_cidr: u64,
    pub drop_rate: u64,
    pub drop_sig_tcp: u64,
    pub parse_err: u64,
}

/// The counters from the values of the six slots of the stats map, read
/// in slot order: pass, blocked address, blocked CIDR, rate limit, TCP
/// signature, parse error.
pub fn read_stats(slots: &Vec<Vec<u8>>) -> (s: Stats)
    requires
        slots@.len() == 6,
        forall|i: int| 0 <= i < 6 ==> (#[trigger] slots@[i])@.len() == 8,
    ensures
        s.pass == ne_u64(slots@[0]@),
        s.drop_block_ip == ne_u64(slots@[1]@),
        s.drop_block_cidr == ne_u64(slots@[2]@),
        s.drop_rate == ne_u64(slots@[3]@),
        s.drop_sig_tcp == ne_u64(slots@[4]@),
        s.parse_err == ne_u64(slots@[5]@),
{
    assert(slots@[0]@.len() == 8);
    assert(slots@[1]@.len() == 8);
    assert(slots@[2]@.len() == 8);
    assert(slots@[3]@.len() == 8);
    assert(slots@[4]@.len() == 8);
    assert(slots@[5]@.len() == 8);
    Stats {
        pass: read_counter(slots[0].as_slice()),
        drop_block_ip: read_counter(slots[1].as_slice()),
        drop_block_cidr: read_counter(slots[2].as_slice()),
        drop_rate: read_counter(slots[3].as_slice()),
        drop_sig_tcp: read_counter(slots[4].as_slice()),
        parse_err: read_counter(slots[5].as_slice()),
    }
}

} // verus!
