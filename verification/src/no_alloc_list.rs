use vstd::prelude::*;

verus! {

/// An entry of an `NAList`: a value that the list keeps in order.
pub struct Node<T> {
    data: T,
}

impl<T> Node<T> {
    /// The value the node carries.
    pub closed spec fn value(&self) -> T {
        self.data
    }

    /// A node carrying `data`, on no list yet.
    pub fn construct_at(data: T) -> (n: Node<T>)
        ensures
            n.value() == data,
    {
        Node { data }
    }

    pub fn data(&self) -> (r: &T)
        ensures
            *r == self.value(),
    {
        &self.data
    }

    pub fn data_mut(&mut self) -> (r: &mut T)
        ensures
            *r == old(self).value(),
            final(self).value() == *final(r),
    {
        &mut self.data
    }
}

/// A list of nodes that keeps their order: new nodes go in at the front or at the back,
/// and nodes are found and taken out by a test on them, the first that passes.
pub struct NAList<T> {
    nodes: Vec<Node<T>>,
}

impl<T> NAList<T> {
    /// The nodes from the front of the list to its back.
    pub closed spec fn nodes(&self) -> Seq<Node<T>> {
        self.nodes@
    }

    pub fn new() -> (l: NAList<T>)
        ensures
            l.nodes() == Seq::<Node<T>>::empty(),
    {
        NAList { nodes: Vec::new() }
    }

    /// Number of nodes on the list.
    pub fn count(&self) -> (n: usize)
        ensures
            n == self.nodes().len(),
    {
        self.nodes.len()
    }

    /// Index of the first node on which `f` holds, if any.
    pub fn find_if<F: Fn(&Node<T>) -> bool>(&self, f: F) -> (r: Option<usize>)
        requires
            forall|n: &Node<T>| #[trigger] f.requires((n,)),
        ensures
            match r {
                Some(i) => i < self.nodes().len() && f.ensures((&self.nodes()[i as int],), true)
                    && forall|j: int| 0 <= j < i ==> f.ensures((&self.nodes()[j],), false),
                None => forall|j: int| 0 <= j < self.nodes().len() ==> f.ensures((&self.nodes()[j],), false),
            },
    {
        let mut i: usize = 0;
        while i < self.nodes.len()
            invariant
                forall|n: &Node<T>| #[trigger] f.requires((n,)),
                i <= self.nodes@.len(),
                forall|j: int| 0 <= j < i ==> f.ensures((&self.nodes@[j],), false),
            decreases self.nodes@.len() - i,
        {
            let b = f(&self.nodes[i]);
            if b {
                return Some(i);
            }
            i = i + 1;
        }
        None
    }

    /// Puts `node` at the front of the list.
    pub fn insert_front(&mut self, node: Node<T>)
        ensures
            final(self).nodes() == seq![node] + old(self).nodes(),
    {
        self.nodes.insert(0, node);
        assert(self.nodes@ =~= seq![node] + old(self).nodes@);
    }

    /// Puts `node` at the back of the list.
    pub fn insert_back(&mut self, node: Node<T>)
        ensures
            final(self).nodes() == old(self).nodes().push(node),
    {
        self.nodes.push(node);
    }

    /// Takes the first node on which `f` holds off the list, and returns it; the others
    /// keep their order.
    pub fn remove_if<F: Fn(&Node<T>) -> bool>(&mut self, f: F) -> (r: Option<Node<T>>)
        requires
            forall|n: &Node<T>| #[trigger] f.requires((n,)),
        ensures
            match r {
                Some(n) => exists|i: int| 0 <= i < old(self).nodes().len() && old(self).nodes()[i] == n
                    && f.ensures((&old(self).nodes()[i],), true)
                    && (forall|j: int| 0 <= j < i ==> f.ensures((&old(self).nodes()[j],), false))
                    && final(self).nodes() == old(self).nodes().remove(i),
                None => (forall|j: int| 0 <= j < old(self).nodes().len() ==> f.ensures((&old(self).nodes()[j],), false))
                    && final(self).nodes() == old(self).nodes(),
            },
    {
        match self.find_if(f) {
            Some(i) => {
                let n = self.nodes.remove(i);
                Some(n)
            },
            None => None,
        }
    }

    /// The values of the nodes, from the front of the list to its back.
    pub fn iter(&self) -> (v: Vec<&T>)
        ensures
            v@.len() == self.nodes().len(),
            forall|i: int| 0 <= i < v@.len() ==> *v@[i] == self.nodes()[i].value(),
    {
        let mut v: Vec<&T> = Vec::new();
        let mut i: usize = 0;
        while i < self.nodes.len()
            invariant
                i <= self.nodes@.len(),
                v@.len() == i,
                forall|k: int| 0 <= k < i ==> *v@[k] == self.nodes@[k].value(),
            decreases self.nodes@.len() - i,
        {
            v.push(self.nodes[i].data());
            i = i + 1;
        }
        v
    }
}

} // verus!
