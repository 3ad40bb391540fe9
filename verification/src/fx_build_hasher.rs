use vstd::prelude::*;

verus! {

/// What hashing a `usize` key with `rustc_hash::FxHasher` yields. `FxHasher`
/// is unseeded, so the hash is a function of the key alone; its exact value is
/// left unspecified here.
pub uninterp spec fn fx_hash_of(key: usize) -> usize;

/// The hashing capability the table consumes: a provider maps a key to a
/// fixed-width integer, deterministically within one provider instance
/// (`hash_key` always agrees with the provider's own `hash_spec`).
pub trait HashProvider: Sized {
    spec fn hash_spec(&self, key: usize) -> usize;

    fn hash_key(&self, key: usize) -> (h: usize)
        ensures
            h == self.hash_spec(key),
    ;
}

/// The default hash provider, backed by the fx hashing algorithm.
#[derive(Clone)]
pub struct FxBuildHasher;

impl FxBuildHasher {
    pub fn new() -> (r: Self)
        ensures
            r == (FxBuildHasher {}),
    {
        Self {}
    }
}

/// Relies on rustc_hash::FxHasher: an unseeded hasher whose output depends on
/// the written bytes alone, so hashing a `usize` key is a function of the key.
#[verifier::external_body]
fn fx_hash(key: usize) -> (h: usize)
    ensures
        h == fx_hash_of(key),
{
    let mut hasher = rustc_hash::FxHasher::default();
    core::hash::Hasher::write_usize(&mut hasher, key);
    core::hash::Hasher::finish(&hasher) as usize
}

impl HashProvider for FxBuildHasher {
    open spec fn hash_spec(&self, key: usize) -> usize {
        fx_hash_of(key)
    }

    fn hash_key(&self, key: usize) -> (h: usize) {
        fx_hash(key)
    }
}

} // verus!
