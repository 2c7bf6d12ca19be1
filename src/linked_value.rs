use vstd::prelude::*;

verus! {

/// One entry of the table: the stored value, the entry's own key, and the
/// keys of its neighbours in iteration order (`None` at either end).
pub struct LinkedValue<K, V> {
    pub value: V,
    pub(crate) key: K,
    pub(crate) prev: Option<K>,
    pub(crate) next: Option<K>,
}

} // verus!
