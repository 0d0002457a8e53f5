//! The names that the browser build exposes: crate version, environment
//! label, model names and the run names of the sweep.

use vstd::prelude::*;
use vstd::string::*;
use crate::model::{Variant, Width, model_name_of, run_name_of};

verus! {

/// Version of the crate, carried into the header of every run.
pub const VERSION: &'static str = "0.1.0";

/// Environment recorded by every run that the browser build originates.
pub const ENV: &'static str = "wasm";

/// Version of the crate, as a string.
pub fn core_version() -> (r: String)
    ensures
        r@ == VERSION@,
{
    String::from_str(VERSION)
}

/// Environment to record in the `env` field of a run.
pub fn env_label() -> (r: String)
    ensures
        r@ == ENV@,
{
    String::from_str(ENV)
}

/// Canonical model name of width `bits`, or the empty string when `bits`
/// is outside `1..=32`.
pub fn model_name(bits: u8) -> (r: String)
    ensures
        1 <= bits <= 32 ==> r@ == model_name_of(bits as nat),
        !(1 <= bits <= 32) ==> r@ == Seq::<char>::empty(),
{
    match Width::new(bits) {
        Ok(w) => w.model_name(),
        Err(_) => String::new(),
    }
}

/// Run names (variant `M2`) of the widths `1..=n`, separated by commas.
pub open spec fn sweep_names(n: nat) -> Seq<char>
    decreases n,
{
    if n == 0 {
        Seq::<char>::empty()
    } else if n == 1 {
        run_name_of(1, Variant::M2)
    } else {
        sweep_names((n - 1) as nat) + seq![','] + run_name_of(n, Variant::M2)
    }
}

/// Run names of the 32 widths of the sweep, separated by commas.
pub fn sweep_run_names() -> (r: String)
    ensures
        r@ == sweep_names(32),
{
    let widths = crate::model::all_widths();
    let mut s = String::new();
    let mut i: usize = 0;
    proof {
        reveal_strlit(",");
    }
    while i < widths.len()
        invariant
            widths@.len() == 32,
            forall|k: int| 0 <= k < 32 ==> (#[trigger] widths@[k]).spec_bits() == k + 1,
            i <= 32,
            s@ == sweep_names(i as nat),
        decreases 32 - i,
    {
        let ghost before = s@;
        proof {
            reveal_strlit(",");
        }
        if i > 0 {
            s.append(",");
        }
        let name = widths[i].run_name(Variant::M2);
        s.append(name.as_str());
        proof {
            assert(widths@[i as int].spec_bits() == i + 1);
            if i == 0 {
                assert(s@ =~= sweep_names(1));
            } else {
                assert(s@ =~= before + seq![','] + run_name_of((i + 1) as nat, Variant::M2));
            }
        }
        i = i + 1;
    }
    s
}

} // verus!
