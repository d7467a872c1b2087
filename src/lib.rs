use vstd::prelude::*;

pub mod audio;
pub mod bedtime;
pub mod color;
pub mod economy;
pub mod format;
pub mod ids;
pub mod interval_set;
pub mod lobby;
pub mod patterns;
pub mod payout_text;
pub mod roles;
pub mod speech;
pub mod template;
pub mod time;
pub mod voice;

verus! {

/// Pairs `key` with `f(key)`.
pub fn to_snd<K, V, F: Fn(&K) -> V>(f: F, key: K) -> (r: (K, V))
    requires
        f.requires((&key,)),
    ensures
        r.0 == key,
        f.ensures((&key,), r.1),
{
    let value = f(&key);
    (key, value)
}

} // verus!
