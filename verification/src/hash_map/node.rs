use vstd::prelude::*;

verus! {

/// What a trie node and a collision bucket have in common: both hold pairs in some order
/// and can tell whether they hold exactly one.
pub trait Node<K, V>: Sized {
    /// The pairs in the order in which a walk meets them.
    spec fn contents(&self) -> Seq<(K, V)>;

    /// The node holds one pair, and holds it directly.
    spec fn singleton(&self) -> bool;

    /// A singleton holds exactly one pair.
    proof fn lemma_singleton(&self)
        requires
            self.singleton(),
        ensures
            self.contents().len() == 1,
    ;

    /// Whether the node holds one pair, and holds it directly.
    fn is_singleton(&self) -> (r: bool)
        ensures
            r == self.singleton(),
    ;

    /// The first pair that a walk meets, if there is one.
    fn first(&self) -> (r: Option<(&K, &V)>)
        ensures
            match r {
                Some(p) => self.contents().len() > 0 && (*p.0, *p.1) == self.contents()[0],
                None => self.contents().len() == 0,
            },
    ;
}

} // verus!
