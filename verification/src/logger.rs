//! Whether debug logging is on.
use vstd::prelude::*;
use vstd::string::StringSliceAdditionalSpecFns;

verus! {

/// Logging is on when the setting is `1`, `true`, `yes` or `on`.
pub open spec fn log_enabled_spec(setting: Option<Seq<u8>>) -> bool {
    match setting {
        Some(v) => v == "1".spec_bytes() || v == "true".spec_bytes() || v == "yes".spec_bytes() || v
            == "on".spec_bytes(),
        None => false,
    }
}

fn same_bytes(a: &[u8], b: &[u8]) -> (r: bool)
    ensures
        r == (a@ == b@),
{
    if a.len() != b.len() {
        return false;
    }
    let mut i: usize = 0;
    while i < a.len()
        invariant
            a@.len() == b@.len(),
            i <= a@.len(),
            forall|k: int| 0 <= k < i ==> a@[k] == b@[k],
        decreases a@.len() - i,
    {
        if a[i] != b[i] {
            return false;
        }
        i = i + 1;
    }
    assert(a@ =~= b@);
    true
}

/// Is logging on, given the value of the `RAWGREP_LOG` setting (`None` when unset)?
pub fn log_enabled(setting: Option<&str>) -> (r: bool)
    ensures
        r == log_enabled_spec(
            match setting {
                Some(v) => Some(v.spec_bytes()),
                None => None,
            },
        ),
{
    match setting {
        Some(v) => {
            let v = v.as_bytes();
            same_bytes(v, "1".as_bytes()) || same_bytes(v, "true".as_bytes()) || same_bytes(
                v,
                "yes".as_bytes(),
            ) || same_bytes(v, "on".as_bytes())
        },
        None => false,
    }
}

} // verus!
