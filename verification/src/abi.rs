//! The compatibility check between the capsule ABI of an extension and that of the
//! host it is loaded into.
use vstd::prelude::*;
use vstd::string::*;

use crate::text::{decimal, to_decimal};

verus! {

/// The text before the extension's ABI version.
pub open spec fn abi_message_head() -> Seq<char> {
    "luna_model capsule ABI mismatch: this extension was built against luna-model capsule ABI v"@
}

/// The text between the two ABI versions.
pub open spec fn abi_message_middle() -> Seq<char> {
    ", but the imported `luna_model` exposes capsule ABI v"@
}

/// The text after the host's ABI version.
pub open spec fn abi_message_tail() -> Seq<char> {
    ". The two exchange Rust objects through raw-pointer capsules whose memory layout differs across these ABIs, so using them together is unsound. Rebuild this extension against a `pyo3-lunamodel` release matching the installed `luna_model` (or update `luna_model` to match the extension)."@
}

/// The message that reports an extension of ABI `extension_abi` in a host of ABI
/// `host_abi`.
pub open spec fn abi_message(extension_abi: nat, host_abi: nat) -> Seq<char> {
    abi_message_head() + decimal(extension_abi) + abi_message_middle() + decimal(host_abi)
        + abi_message_tail()
}

/// A message that explains the incompatibility when `extension_abi` and `host_abi`
/// differ; nothing when they match.
pub fn abi_mismatch(extension_abi: u32, host_abi: u32) -> (r: Option<String>)
    ensures
        r is None <==> extension_abi == host_abi,
        r matches Some(m) ==> m@ == abi_message(extension_abi as nat, host_abi as nat),
{
    if extension_abi == host_abi {
        return None;
    }
    let msg = String::from_str(
        "luna_model capsule ABI mismatch: this extension was built against luna-model capsule ABI v",
    );
    let msg = msg.concat(to_decimal(extension_abi as u64).as_str());
    let msg = msg.concat(", but the imported `luna_model` exposes capsule ABI v");
    let msg = msg.concat(to_decimal(host_abi as u64).as_str());
    let msg = msg.concat(
        ". The two exchange Rust objects through raw-pointer capsules whose memory layout differs across these ABIs, so using them together is unsound. Rebuild this extension against a `pyo3-lunamodel` release matching the installed `luna_model` (or update `luna_model` to match the extension).",
    );
    proof {
        assert(msg@ =~= abi_message(extension_abi as nat, host_abi as nat));
    }
    Some(msg)
}

/// `needle` occurs in `text` at position `at`.
pub open spec fn occurs_at(text: Seq<char>, needle: Seq<char>, at: int) -> bool {
    0 <= at && at + needle.len() <= text.len() && text.subrange(at, at + needle.len()) == needle
}

/// The message of a mismatch names both versions, each after a `v`.
pub proof fn law_mismatch_message_names_both_versions(extension_abi: nat, host_abi: nat)
    ensures
        exists|i: int| occurs_at(abi_message(extension_abi, host_abi), seq!['v'] + decimal(extension_abi), i),
        exists|i: int| occurs_at(abi_message(extension_abi, host_abi), seq!['v'] + decimal(host_abi), i),
{
    reveal_strlit(
        "luna_model capsule ABI mismatch: this extension was built against luna-model capsule ABI v",
    );
    reveal_strlit(", but the imported `luna_model` exposes capsule ABI v");
    let m = abi_message(extension_abi, host_abi);
    let h = abi_message_head();
    let de = decimal(extension_abi);
    let mid = abi_message_middle();
    let dh = decimal(host_abi);
    let i = h.len() - 1;
    assert(h[i] == 'v');
    assert(m.subrange(i, i + 1 + de.len()) =~= seq!['v'] + de);
    assert(occurs_at(m, seq!['v'] + de, i));
    let j = h.len() + de.len() + mid.len() - 1;
    assert(mid[mid.len() - 1] == 'v');
    assert(m.subrange(j, j + 1 + dh.len()) =~= seq!['v'] + dh);
    assert(occurs_at(m, seq!['v'] + dh, j));
}

} // verus!
