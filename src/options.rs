use vstd::prelude::*;
use core::marker::PhantomData;

verus! {

/// The smallest maximum fanout a list accepts.
pub const MIN_MAX_FANOUT: usize = 3;

/// The configured maximum fanout, raised to at least three.
pub open spec fn max_fanout_spec(fanout: nat) -> nat {
    if fanout < 3 { 3 } else { fanout }
}

/// The least number of children of a non-root internal node.
pub open spec fn min_fanout_spec(max: nat) -> nat {
    (max + 1) / 2
}

/// A maximum and a minimum fanout that fit together: every split and every
/// merge stays within these bounds.
pub open spec fn fanouts_ok(mn: nat, mx: nat) -> bool {
    &&& mx >= 3
    &&& mn == min_fanout_spec(mx)
}

/// The maximum fanout for a configured one: clamped up to three.
pub fn max_fanout(fanout: usize) -> (r: usize)
    ensures
        r == max_fanout_spec(fanout as nat),
{
    if fanout < MIN_MAX_FANOUT {
        MIN_MAX_FANOUT
    } else {
        fanout
    }
}

/// The minimum fanout of a non-root internal node under maximum `mx`:
/// half of it, rounded up.
pub fn min_fanout(mx: usize) -> (r: usize)
    requires
        mx >= 3,
    ensures
        r == min_fanout_spec(mx as nat),
        fanouts_ok(r as nat, mx as nat),
        r >= 2,
{
    mx / 2 + mx % 2
}

/// A boolean option given in a type.
pub struct Bool<const B: bool>;

/// An integer option given in a type.
pub struct Usize<const N: usize>;

/// The value behind a fanout option.
pub trait FanoutPriv {
    spec fn value_spec() -> nat;

    fn value() -> (r: usize)
        ensures
            r as nat == Self::value_spec(),
    ;
}

/// A fanout option: the maximum number of children of an internal node,
/// before clamping.
pub trait Fanout: FanoutPriv {
}

impl<const N: usize> FanoutPriv for Usize<N> {
    open spec fn value_spec() -> nat {
        N as nat
    }

    fn value() -> (r: usize) {
        N
    }
}

impl<const N: usize> Fanout for Usize<N> {
}

/// The value behind a key-storing option.
pub trait StoreKeysPriv {
    spec fn stores_spec() -> bool;

    fn stores() -> (r: bool)
        ensures
            r == Self::stores_spec(),
    ;
}

/// Whether ordered lookups are offered: the internal nodes cache the value
/// of their leftmost leaf, and ordered lookups go down by it.
pub trait StoreKeys: StoreKeysPriv {
}

impl<const B: bool> StoreKeysPriv for Bool<B> {
    open spec fn stores_spec() -> bool {
        B
    }

    fn stores() -> (r: bool) {
        B
    }
}

impl<const B: bool> StoreKeys for Bool<B> {
}

/// Keeps the implementations of `ListOptions` to this crate.
pub trait Sealed {
}

/// The options of a list, given as types.
pub trait ListOptions: Sealed {
    type StoreKeys: StoreKeys;

    type Fanout: Fanout;
}

/// Options made of a key-storing option and a fanout option.
pub struct TypedOptions<K, F> {
    keys: PhantomData<K>,
    fanout: PhantomData<F>,
}

impl<K, F> Sealed for TypedOptions<K, F> {
}

impl<K: StoreKeys, F: Fanout> ListOptions for TypedOptions<K, F> {
    type StoreKeys = K;

    type Fanout = F;
}

/// Options given as constants: whether keys are stored, and the fanout.
pub type Options<const STORE_KEYS: bool, const FANOUT: usize> = TypedOptions<Bool<STORE_KEYS>, Usize<FANOUT>>;

/// The options of a list made with `SkipList::new`: no ordered lookups,
/// fanout eight.
pub type DefaultOptions = Options<false, 8>;

} // verus!
