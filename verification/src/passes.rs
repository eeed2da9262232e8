use vstd::prelude::*;

verus! {

broadcast use vstd::string::group_string_axioms;

/// The names of the passes of the default pipeline, in order.
pub fn default_pass_name(i: usize) -> (r: String)
    requires
        i < 3,
    ensures
        i == 0 ==> r@ == "color"@,
        i == 1 ==> r@ == "albedo"@,
        i == 2 ==> r@ == "normal"@,
{
    let names = ["color", "albedo", "normal"];
    names[i].to_string()
}

/// The names of the passes of the hierarchy debugging pipeline, in order.
pub fn bvh_debug_pass_name(i: usize) -> (r: String)
    requires
        i < 3,
    ensures
        i == 0 ==> r@ == "num_aabb_intersects"@,
        i == 1 ==> r@ == "num_aabb_checks"@,
        i == 2 ==> r@ == "num_primitive_checks"@,
{
    let names = ["num_aabb_intersects", "num_aabb_checks", "num_primitive_checks"];
    names[i].to_string()
}

/// A number of seconds as hours, minutes of the hour and seconds of the minute.
pub fn split_duration(total_seconds: u32) -> (r: (u32, u32, u32))
    ensures
        r.0 == total_seconds / 3600,
        r.1 == (total_seconds / 60) % 60,
        r.2 == total_seconds % 60,
        r.1 < 60 && r.2 < 60,
        r.0 * 3600 + r.1 * 60 + r.2 == total_seconds,
{
    let hours = total_seconds / 3600;
    let minutes = (total_seconds / 60) % 60;
    let seconds = total_seconds % 60;
    proof {
        let s = total_seconds as int;
        vstd::arithmetic::div_mod::lemma_fundamental_div_mod(s, 60);
        vstd::arithmetic::div_mod::lemma_fundamental_div_mod(s / 60, 60);
        vstd::arithmetic::div_mod::lemma_div_denominator(s, 60, 60);
    }
    (hours, minutes, seconds)
}

} // verus!
