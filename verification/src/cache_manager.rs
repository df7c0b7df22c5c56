use vstd::prelude::*;
use crate::constant::PAGE_SIZE;
use crate::page_allocator::PageAllocator;
use crate::cache::{Error, FreeNode, align_with_hw_cache, insert_seq, covered};
use crate::size_cache::{SizeCache, carve_outcome, shrink_result};
use crate::no_alloc_list::{NAList, Node};

verus! {

/// Keeper of the object caches: room for the caches it creates is carved from
/// `cache_space`, room for the list nodes that record every cache it knows from
/// `node_space`. Each node records the address of its cache and where the node lies.
pub struct CacheManager<const CACHE_SIZE: usize, const NODE_SIZE: usize> {
    cache_space: SizeCache<CACHE_SIZE>,
    node_space: SizeCache<NODE_SIZE>,
    list: NAList<(usize, usize)>,
}

/// The first node of `l` that records the cache at `cache`, if any.
pub open spec fn first_record(l: Seq<(usize, usize)>, cache: usize, i: int) -> bool {
    &&& 0 <= i < l.len()
    &&& l[i].0 == cache
    &&& forall|j: int| 0 <= j < i ==> (#[trigger] l[j]).0 != cache
}

/// What giving back the node at `node` leaves among the free chunks `s` of the node space:
/// the node joins them, unless it is free already or runs past the top of `usize`.
pub open spec fn node_given_back(s: Seq<FreeNode>, node: usize, slot: int) -> Seq<FreeNode> {
    if node + slot <= usize::MAX && !covered(s).contains(node as int) {
        insert_seq(s, FreeNode { addr: node, bytes: slot as usize })
    } else {
        s
    }
}

impl<const CACHE_SIZE: usize, const NODE_SIZE: usize> CacheManager<CACHE_SIZE, NODE_SIZE> {
    /// The records, front first: the address of each cache and where its node lies.
    pub closed spec fn records(&self) -> Seq<(usize, usize)> {
        self.list.nodes().map_values(|n: Node<(usize, usize)>| n.value())
    }

    /// The room carved for caches.
    pub closed spec fn cache_space(&self) -> SizeCache<CACHE_SIZE> {
        self.cache_space
    }

    /// The room carved for list nodes.
    pub closed spec fn node_space(&self) -> SizeCache<NODE_SIZE> {
        self.node_space
    }

    pub open spec fn wf(&self) -> bool {
        &&& self.cache_space().wf()
        &&& self.node_space().wf()
    }

    /// A keeper that knows no cache and has carved nothing.
    pub fn new() -> (m: Self)
        ensures
            m.wf(),
            m.records() == Seq::<(usize, usize)>::empty(),
            m.cache_space().free() == Seq::<FreeNode>::empty() && m.cache_space().pages() == 0,
            m.node_space().free() == Seq::<FreeNode>::empty() && m.node_space().pages() == 0,
    {
        let m = CacheManager { cache_space: SizeCache::new(), node_space: SizeCache::new(), list: NAList::new() };
        assert(m.records() =~= Seq::<(usize, usize)>::empty());
        m
    }

    /// Carves room for a new cache and a node that records it, puts the node at the front
    /// of the list and returns where the cache goes. When no node can be had the room of
    /// the cache is not given back.
    pub fn new_allocator(&mut self, pages: &mut PageAllocator) -> (r: Result<usize, Error>)
        requires
            old(self).wf(),
            old(pages).wf(),
            SizeCache::<CACHE_SIZE>::slot_pages() * PAGE_SIZE <= usize::MAX,
            SizeCache::<NODE_SIZE>::slot_pages() * PAGE_SIZE <= usize::MAX,
            old(self).cache_space().pages() + SizeCache::<CACHE_SIZE>::slot_pages() <= usize::MAX,
            old(self).node_space().pages() + SizeCache::<NODE_SIZE>::slot_pages() <= usize::MAX,
        ensures
            final(self).wf(),
            final(pages).wf(),
            exists|p1: PageAllocator, rc: Result<usize, Error>| {
                &&& carve_outcome(old(self).cache_space().free(), final(self).cache_space().free(),
                    old(self).cache_space().pages(), final(self).cache_space().pages(), *old(pages), p1,
                    SizeCache::<CACHE_SIZE>::slot(), SizeCache::<CACHE_SIZE>::slot_pages(), rc)
                &&& match rc {
                    Err(_) => r is Err && *final(pages) == p1 && final(self).records() == old(self).records()
                        && final(self).node_space() == old(self).node_space(),
                    Ok(c) => exists|rn: Result<usize, Error>| {
                        &&& carve_outcome(old(self).node_space().free(), final(self).node_space().free(),
                            old(self).node_space().pages(), final(self).node_space().pages(), p1, *final(pages),
                            SizeCache::<NODE_SIZE>::slot(), SizeCache::<NODE_SIZE>::slot_pages(), rn)
                        &&& match rn {
                            Ok(n) => r == Ok::<usize, Error>(c)
                                && final(self).records() == seq![(c, n)] + old(self).records(),
                            Err(_) => r is Err && final(self).records() == old(self).records(),
                        }
                    },
                }
            },
    {
        let ghost p0 = *pages;
        let mem_cache = match self.cache_space.allocate(pages) {
            Ok(a) => a,
            Err(e) => {
                return Err(e);
            },
        };
        let ghost p1 = *pages;
        let ghost rc = Ok::<usize, Error>(mem_cache);
        let mem_node = match self.node_space.allocate(pages) {
            Ok(a) => a,
            Err(e) => {
                proof {
                    let rn = Err::<usize, Error>(e);
                    assert(carve_outcome(old(self).cache_space().free(), self.cache_space().free(),
                        old(self).cache_space().pages(), self.cache_space().pages(), p0, p1,
                        SizeCache::<CACHE_SIZE>::slot(), SizeCache::<CACHE_SIZE>::slot_pages(), rc));
                    assert(carve_outcome(old(self).node_space().free(), self.node_space().free(),
                        old(self).node_space().pages(), self.node_space().pages(), p1, *pages,
                        SizeCache::<NODE_SIZE>::slot(), SizeCache::<NODE_SIZE>::slot_pages(), rn));
                    assert(self.records() =~= old(self).records());
                    assert(exists|rn: Result<usize, Error>| {
                        &&& carve_outcome(old(self).node_space().free(), self.node_space().free(),
                            old(self).node_space().pages(), self.node_space().pages(), p1, *pages,
                            SizeCache::<NODE_SIZE>::slot(), SizeCache::<NODE_SIZE>::slot_pages(), rn)
                        &&& match rn {
                            Ok(n) => Err::<usize, Error>(e) == Ok::<usize, Error>(mem_cache)
                                && self.records() == seq![(mem_cache, n)] + old(self).records(),
                            Err(_) => Err::<usize, Error>(e) is Err && self.records() == old(self).records(),
                        }
                    });
                }
                return Err(e);
            },
        };
        let ghost l0 = self.list.nodes();
        self.list.insert_front(Node::construct_at((mem_cache, mem_node)));
        proof {
            assert(self.records() =~= seq![(mem_cache, mem_node)] + old(self).records());
            let rn = Ok::<usize, Error>(mem_node);
            assert(carve_outcome(old(self).node_space().free(), self.node_space().free(),
                old(self).node_space().pages(), self.node_space().pages(), p1, *pages,
                SizeCache::<NODE_SIZE>::slot(), SizeCache::<NODE_SIZE>::slot_pages(), rn));
        }
        Ok(mem_cache)
    }

    /// Records the cache at `cache` at the front of the list, on a node carved from the
    /// node space.
    pub fn register(&mut self, cache: usize, pages: &mut PageAllocator) -> (r: Result<(), Error>)
        requires
            old(self).wf(),
            old(pages).wf(),
            SizeCache::<NODE_SIZE>::slot_pages() * PAGE_SIZE <= usize::MAX,
            old(self).node_space().pages() + SizeCache::<NODE_SIZE>::slot_pages() <= usize::MAX,
        ensures
            final(self).wf(),
            final(pages).wf(),
            final(self).cache_space() == old(self).cache_space(),
            exists|rn: Result<usize, Error>| {
                &&& carve_outcome(old(self).node_space().free(), final(self).node_space().free(),
                    old(self).node_space().pages(), final(self).node_space().pages(), *old(pages), *final(pages),
                    SizeCache::<NODE_SIZE>::slot(), SizeCache::<NODE_SIZE>::slot_pages(), rn)
                &&& match rn {
                    Ok(n) => r is Ok && final(self).records() == seq![(cache, n)] + old(self).records(),
                    Err(_) => r is Err && final(self).records() == old(self).records(),
                }
            },
    {
        let mem_node = match self.node_space.allocate(pages) {
            Ok(a) => a,
            Err(e) => {
                proof {
                    assert(carve_outcome(old(self).node_space().free(), self.node_space().free(),
                        old(self).node_space().pages(), self.node_space().pages(), *old(pages), *pages,
                        SizeCache::<NODE_SIZE>::slot(), SizeCache::<NODE_SIZE>::slot_pages(), Err::<usize, Error>(e)));
                }
                return Err(e);
            },
        };
        self.list.insert_front(Node::construct_at((cache, mem_node)));
        proof {
            assert(self.records() =~= seq![(cache, mem_node)] + old(self).records());
            assert(carve_outcome(old(self).node_space().free(), self.node_space().free(),
                old(self).node_space().pages(), self.node_space().pages(), *old(pages), *pages,
                SizeCache::<NODE_SIZE>::slot(), SizeCache::<NODE_SIZE>::slot_pages(), Ok::<usize, Error>(mem_node)));
        }
        Ok(())
    }

    /// Takes the first record of the cache at `cache` off the list and gives its node
    /// back to the node space; returns the record. Nothing happens when no record names it.
    fn take_record(&mut self, cache: usize) -> (r: Option<(usize, usize)>)
        requires
            old(self).wf(),
            0 < NODE_SIZE,
            NODE_SIZE + 64 <= usize::MAX,
        ensures
            final(self).wf(),
            final(self).cache_space() == old(self).cache_space(),
            final(self).node_space().pages() == old(self).node_space().pages(),
            match r {
                Some(rec) => exists|i: int| #[trigger] first_record(old(self).records(), cache, i)
                    && rec == old(self).records()[i]
                    && final(self).records() == old(self).records().remove(i)
                    && final(self).node_space().free() == node_given_back(old(self).node_space().free(), rec.1,
                        SizeCache::<NODE_SIZE>::slot()),
                None => (forall|j: int| 0 <= j < old(self).records().len() ==> (#[trigger] old(self).records()[j]).0 != cache)
                    && final(self).records() == old(self).records()
                    && final(self).node_space() == old(self).node_space(),
            },
    {
        let found = self.list.remove_if(|n: &Node<(usize, usize)>| -> (b: bool)
            ensures
                b == (n.value().0 == cache),
            { n.data().0 == cache });
        match found {
            Some(node) => {
                let rec = *node.data();
                proof {
                    let i = choose|i: int| 0 <= i < old(self).list.nodes().len() && old(self).list.nodes()[i] == node
                        && (forall|j: int| 0 <= j < i ==> (old(self).list.nodes()[j].value().0 == cache) == false)
                        && self.list.nodes() == old(self).list.nodes().remove(i)
                        && (node.value().0 == cache) == true;
                    assert(first_record(old(self).records(), cache, i));
                    assert(self.records() =~= old(self).records().remove(i));
                }
                let slot = align_with_hw_cache(NODE_SIZE);
                if rec.1 <= usize::MAX - slot && !self.node_space.is_free(rec.1) {
                    self.node_space.dealloc(rec.1);
                }
                Some(rec)
            },
            None => {
                proof {
                    assert forall|j: int| 0 <= j < old(self).records().len() implies
                        (#[trigger] old(self).records()[j]).0 != cache by {
                        assert(old(self).records()[j] == old(self).list.nodes()[j].value());
                    }
                }
                None
            },
        }
    }

    /// Forgets the cache at `cache`: its first record leaves the list and the node goes
    /// back to the node space.
    pub fn unregister(&mut self, cache: usize)
        requires
            old(self).wf(),
            0 < NODE_SIZE,
            NODE_SIZE + 64 <= usize::MAX,
        ensures
            final(self).wf(),
            final(self).cache_space() == old(self).cache_space(),
            final(self).node_space().pages() == old(self).node_space().pages(),
            (forall|j: int| 0 <= j < old(self).records().len() ==> (#[trigger] old(self).records()[j]).0 != cache)
                ==> final(self).records() == old(self).records() && final(self).node_space() == old(self).node_space(),
            forall|i: int| #[trigger] first_record(old(self).records(), cache, i) ==> {
                &&& final(self).records() == old(self).records().remove(i)
                &&& final(self).node_space().free() == node_given_back(old(self).node_space().free(),
                    old(self).records()[i].1, SizeCache::<NODE_SIZE>::slot())
            },
    {
        let r = self.take_record(cache);
        proof {
            if let Some(rec) = r {
                let i = choose|i: int| #[trigger] first_record(old(self).records(), cache, i)
                    && rec == old(self).records()[i]
                    && self.records() == old(self).records().remove(i)
                    && self.node_space().free() == node_given_back(old(self).node_space().free(), rec.1,
                        SizeCache::<NODE_SIZE>::slot());
                assert forall|k: int| #[trigger] first_record(old(self).records(), cache, k) implies k == i by {
                    if k < i {
                        assert(old(self).records()[k].0 != cache);
                    } else if i < k {
                        assert(old(self).records()[i].0 != cache);
                    }
                }
            }
        }
    }

    /// Drops the cache at `cache`, which this keeper created, given as `cache_obj`: the
    /// cache gives up the whole pages of its free chunks, which are returned; its record
    /// leaves the list, and the node and the room of the cache go back to their spaces.
    /// A cache that ever took a page would leak it, so it may not be dropped.
    pub fn drop_allocator<const N: usize>(&mut self, cache: usize, cache_obj: &mut SizeCache<N>)
        -> (runs: Vec<(usize, usize)>)
        requires
            old(cache_obj).wf(),
            old(cache_obj).pages() == 0,
            old(self).wf(),
            0 < NODE_SIZE,
            NODE_SIZE + 64 <= usize::MAX,
            0 < CACHE_SIZE,
            CACHE_SIZE + 64 <= usize::MAX,
        ensures
            final(self).wf(),
            final(self).node_space().pages() == old(self).node_space().pages(),
            final(self).cache_space().pages() == old(self).cache_space().pages(),
            final(cache_obj).wf(),
            final(cache_obj).pages() == 0,
            final(cache_obj).free() == shrink_result(old(cache_obj).free()).0,
            runs@ == shrink_result(old(cache_obj).free()).1,
            (forall|j: int| 0 <= j < old(self).records().len() ==> (#[trigger] old(self).records()[j]).0 != cache)
                ==> final(self).records() == old(self).records() && final(self).node_space() == old(self).node_space()
                    && final(self).cache_space() == old(self).cache_space(),
            forall|i: int| #[trigger] first_record(old(self).records(), cache, i) ==> {
                &&& final(self).records() == old(self).records().remove(i)
                &&& final(self).node_space().free() == node_given_back(old(self).node_space().free(),
                    old(self).records()[i].1, SizeCache::<NODE_SIZE>::slot())
                &&& final(self).cache_space().free() == node_given_back(old(self).cache_space().free(),
                    cache, SizeCache::<CACHE_SIZE>::slot())
            },
    {
        let runs = cache_obj.cache_shrink();
        let r = self.take_record(cache);
        match r {
            Some(rec) => {
                proof {
                    let i = choose|i: int| #[trigger] first_record(old(self).records(), cache, i)
                        && rec == old(self).records()[i]
                        && self.records() == old(self).records().remove(i)
                        && self.node_space().free() == node_given_back(old(self).node_space().free(), rec.1,
                            SizeCache::<NODE_SIZE>::slot());
                    assert forall|k: int| #[trigger] first_record(old(self).records(), cache, k) implies k == i by {
                        if k < i {
                            assert(old(self).records()[k].0 != cache);
                        } else if i < k {
                            assert(old(self).records()[i].0 != cache);
                        }
                    }
                }
                let slot = align_with_hw_cache(CACHE_SIZE);
                if cache <= usize::MAX - slot && !self.cache_space.is_free(cache) {
                    self.cache_space.dealloc(cache);
                }
            },
            None => {},
        }
        runs
    }

    /// Gives up the whole free pages of both spaces and returns their runs, those of the
    /// cache space first, each as the address of its first page and its number of pages.
    pub fn cache_shrink(&mut self) -> (r: (Vec<(usize, usize)>, Vec<(usize, usize)>))
        requires
            old(self).wf(),
        ensures
            final(self).wf(),
            final(self).records() == old(self).records(),
            final(self).cache_space().free() == shrink_result(old(self).cache_space().free()).0,
            final(self).node_space().free() == shrink_result(old(self).node_space().free()).0,
            r.0@ == shrink_result(old(self).cache_space().free()).1,
            r.1@ == shrink_result(old(self).node_space().free()).1,
    {
        let a = self.cache_space.cache_shrink();
        let b = self.node_space.cache_shrink();
        (a, b)
    }

    /// Pages taken for the room of caches.
    pub fn cache_page_count(&self) -> (n: usize)
        ensures
            n == self.cache_space().pages(),
    {
        self.cache_space.page_count()
    }

    /// Pages taken for the room of list nodes.
    pub fn node_page_count(&self) -> (n: usize)
        ensures
            n == self.node_space().pages(),
    {
        self.node_space.page_count()
    }

    /// Number of free chunks of the room of caches.
    pub fn cache_free_count(&self) -> (n: usize)
        ensures
            n == self.cache_space().free().len(),
    {
        self.cache_space.free_list().count()
    }

    /// Number of free chunks of the room of list nodes.
    pub fn node_free_count(&self) -> (n: usize)
        ensures
            n == self.node_space().free().len(),
    {
        self.node_space.free_list().count()
    }

    /// The addresses of the caches on the list, front first.
    pub fn registered(&self) -> (v: Vec<usize>)
        ensures
            v@ == self.records().map_values(|rec: (usize, usize)| rec.0),
    {
        let recs = self.list.iter();
        let mut v: Vec<usize> = Vec::new();
        let mut i: usize = 0;
        while i < recs.len()
            invariant
                i <= recs@.len(),
                recs@.len() == self.list.nodes().len(),
                forall|k: int| 0 <= k < recs@.len() ==> *recs@[k] == self.list.nodes()[k].value(),
                v@.len() == i,
                forall|k: int| 0 <= k < i ==> v@[k] == self.records()[k].0,
            decreases recs@.len() - i,
        {
            v.push(recs[i].0);
            i = i + 1;
        }
        assert(v@ =~= self.records().map_values(|rec: (usize, usize)| rec.0));
        v
    }
}

} // verus!
