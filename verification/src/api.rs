//! Decisions the control API makes on plain values: who may call it, and
//! how the XDP program is attached.

use vstd::prelude::*;
use vstd::string::StringSliceAdditionalSpecFns;
use vstd::utf8::{encode_utf8, encode_utf8_decode_utf8};

verus! {

/// Whether two texts are the same.
pub fn same_text(a: &str, b: &str) -> (r: bool)
    ensures
        r == (a@ == b@),
{
    let x = a.as_bytes();
    let y = b.as_bytes();
    proof {
        encode_utf8_decode_utf8(a@);
        encode_utf8_decode_utf8(b@);
    }
    if x.len() != y.len() {
        return false;
    }
    let mut i: usize = 0;
    while i < x.len()
        invariant
            i <= x@.len(),
            x@.len() == y@.len(),
            x@ == a.spec_bytes(),
            y@ == b.spec_bytes(),
            forall|j: int| 0 <= j < i ==> x@[j] == y@[j],
        decreases x@.len() - i,
    {
        if x[i] != y[i] {
            return false;
        }
        i += 1;
    }
    assert(x@ =~= y@);
    true
}

/// The text of an optional text.
pub open spec fn opt_text(t: Option<&str>) -> Option<Seq<char>> {
    match t {
        Some(s) => Some(s@),
        None => None,
    }
}

/// The path that answers without a key.
pub open spec fn health_path() -> Seq<char> {
    seq!['/', 'h', 'e', 'a', 'l', 't', 'h']
}

/// Whether a request to `path` that presents `provided` as its key may be
/// served: always where no key is configured; otherwise for the health
/// path, or when the key presented is the key configured.
pub open spec fn authorized_spec(
    api_key: Option<Seq<char>>,
    path: Seq<char>,
    provided: Option<Seq<char>>,
) -> bool {
    match api_key {
        None => true,
        Some(k) => path == health_path() || provided == Some(k),
    }
}

/// With a key configured, only "/health" is served without it: on every
/// other path a request is refused unless it presents exactly that key.
/// With no key configured every request is served.
pub proof fn lemma_key_required(k: Seq<char>, path: Seq<char>, provided: Option<Seq<char>>)
    ensures
        path != seq!['/', 'h', 'e', 'a', 'l', 't', 'h'] && provided != Some(k) ==> !authorized_spec(
            Some(k),
            path,
            provided,
        ),
        authorized_spec(Some(k), seq!['/', 'h', 'e', 'a', 'l', 't', 'h'], provided),
        authorized_spec(Some(k), path, Some(k)),
        authorized_spec(None, path, provided),
{
}

/// Whether a request may be served (see `authorized_spec`).
pub fn authorized(api_key: Option<&str>, path: &str, provided: Option<&str>) -> (ok: bool)
    ensures
        ok == authorized_spec(opt_text(api_key), path@, opt_text(provided)),
{
    match api_key {
        None => true,
        Some(k) => {
            let health = "/health";
            proof {
                reveal_strlit("/health");
            }
            assert(health@ =~= health_path());
            if same_text(path, health) {
                true
            } else {
                match provided {
                    Some(p) => same_text(p, k),
                    None => false,
                }
            }
        },
    }
}

/// How the XDP program is attached to the interface.
#[derive(Clone, Copy, Debug, PartialEq, Eq, Structural)]
pub enum XdpMode {
    /// In the driver ("native").
    Native,
    /// In the generic socket-buffer path ("skb").
    Skb,
}

/// The attach mode that `mode` names: "native" or "skb"; `None` for any
/// other text.
pub fn xdp_mode(mode: &str) -> (r: Option<XdpMode>)
    ensures
        r == (if mode@ == seq!['n', 'a', 't', 'i', 'v', 'e'] {
            Some(XdpMode::Native)
        } else if mode@ == seq!['s', 'k', 'b'] {
            Some(XdpMode::Skb)
        } else {
            None
        }),
{
    let native = "native";
    let skb = "skb";
    proof {
        reveal_strlit("native");
        reveal_strlit("skb");
    }
    assert(native@ =~= seq!['n', 'a', 't', 'i', 'v', 'e']);
    assert(skb@ =~= seq!['s', 'k', 'b']);
    if same_text(mode, native) {
        Some(XdpMode::Native)
    } else if same_text(mode, skb) {
        Some(XdpMode::Skb)
    } else {
        None
    }
}

} // verus!
