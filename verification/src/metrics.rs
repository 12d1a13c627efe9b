//! The Prometheus text page of data-plane counters and control-plane state.

use vstd::prelude::*;
use vstd::string::StringExecFns;
use crate::maps::Stats;
use crate::text::{dec_text, push_decimal, string_from_chars};

verus! {

/// One metric in the Prometheus text format: its type line, then its
/// sample line.
pub open spec fn metric_text(name: Seq<char>, kind: Seq<char>, value: nat) -> Seq<char> {
    "# TYPE "@ + name + " "@ + kind + "\n"@ + name + " "@ + dec_text(value) + "\n"@
}

/// The metrics page: the six data-plane counters, then the rules epoch and
/// the numbers of blocked addresses and CIDR blocks.
pub open spec fn metrics_page(s: Stats, epoch: u64, blocked_ips: u64, blocked_cidrs: u64) -> Seq<
    char,
> {
    metric_text("pazuzu_pass_total"@, "counter"@, s.pass as nat) + metric_text(
        "pazuzu_drop_block_ip_total"@,
        "counter"@,
        s.drop_block_ip as nat,
    ) + metric_text("pazuzu_drop_block_cidr_total"@, "counter"@, s.drop_block_cidr as nat)
        + metric_text("pazuzu_drop_rate_total"@, "counter"@, s.drop_rate as nat) + metric_text(
        "pazuzu_drop_sig_tcp_total"@,
        "counter"@,
        s.drop_sig_tcp as nat,
    ) + metric_text("pazuzu_parse_err_total"@, "counter"@, s.parse_err as nat) + metric_text(
        "pazuzu_rules_epoch"@,
        "gauge"@,
        epoch as nat,
    ) + metric_text("pazuzu_blocked_ips"@, "gauge"@, blocked_ips as nat) + metric_text(
        "pazuzu_blocked_cidrs"@,
        "gauge"@,
        blocked_cidrs as nat,
    )
}

/// Appends one metric.
fn push_metric(out: &mut String, name: &str, kind: &str, value: u64)
    ensures
        final(out)@ == old(out)@ + metric_text(name@, kind@, value as nat),
{
    let mut digits: Vec<char> = Vec::new();
    push_decimal(&mut digits, value);
    assert(digits@ =~= dec_text(value as nat));
    let v = string_from_chars(&digits);
    out.append("# TYPE ");
    out.append(name);
    out.append(" ");
    out.append(kind);
    out.append("\n");
    out.append(name);
    out.append(" ");
    out.append(v.as_str());
    out.append("\n");
    assert(final(out)@ =~= old(out)@ + metric_text(name@, kind@, value as nat));
}

/// The metrics page for the given counters and rule state.
pub fn render_metrics(stats: &Stats, epoch: u64, blocked_ips: u64, blocked_cidrs: u64) -> (page:
    String)
    ensures
        page@ == metrics_page(*stats, epoch, blocked_ips, blocked_cidrs),
{
    let mut out = String::new();
    push_metric(&mut out, "pazuzu_pass_total", "counter", stats.pass);
    push_metric(&mut out, "pazuzu_drop_block_ip_total", "counter", stats.drop_block_ip);
    push_metric(&mut out, "pazuzu_drop_block_cidr_total", "counter", stats.drop_block_cidr);
    push_metric(&mut out, "pazuzu_drop_rate_total", "counter", stats.drop_rate);
    push_metric(&mut out, "pazuzu_drop_sig_tcp_total", "counter", stats.drop_sig_tcp);
    push_metric(&mut out, "pazuzu_parse_err_total", "counter", stats.parse_err);
    push_metric(&mut out, "pazuzu_rules_epoch", "gauge", epoch);
    push_metric(&mut out, "pazuzu_blocked_ips", "gauge", blocked_ips);
    push_metric(&mut out, "pazuzu_blocked_cidrs", "gauge", blocked_cidrs);
    assert(out@ =~= metrics_page(*stats, epoch, blocked_ips, blocked_cidrs));
    out
}

} // verus!
