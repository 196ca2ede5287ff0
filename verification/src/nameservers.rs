//! Nameserver settings of one interface: search domains and server
//! addresses, both duplicate-free and unordered in meaning.
use crate::ip::IpAddress;
use crate::util::{distinct, lemma_distinct_push, lemma_remove_first_absent, lemma_remove_first_at,
    lemma_remove_first_distinct, remove_first, string_views};
use vstd::prelude::*;

verus! {

pub struct Nameservers {
    pub search: Vec<String>,
    pub addresses: Vec<IpAddress>,
}

impl Nameservers {
    /// Both member lists hold no duplicates.
    pub open spec fn wf(self) -> bool {
        distinct(string_views(self.search@)) && distinct(self.addresses@)
    }

    pub open spec fn spec_search(self) -> Seq<Seq<char>> {
        string_views(self.search@)
    }

    pub open spec fn spec_addresses(self) -> Seq<IpAddress> {
        self.addresses@
    }

    pub fn new() -> (r: Self)
        ensures
            r.spec_search() =~= Seq::<Seq<char>>::empty(),
            r.spec_addresses() =~= Seq::<IpAddress>::empty(),
            r.wf(),
    {
        Nameservers { search: Vec::new(), addresses: Vec::new() }
    }

    pub fn contains_search(&self, search: &String) -> (r: bool)
        ensures
            r == self.spec_search().contains(search@),
    {
        contains_string(&self.search, search)
    }

    pub fn contains_address(&self, address: &IpAddress) -> (r: bool)
        ensures
            r == self.spec_addresses().contains(*address),
    {
        contains_ip(&self.addresses, address)
    }

    /// Adds a search domain unless it is already present.
    pub fn add_search(&mut self, search: &String)
        ensures
            final (self).addresses == old(self).addresses,
            final (self).spec_search() == if old(self).spec_search().contains(search@) {
                old(self).spec_search()
            } else {
                old(self).spec_search().push(search@)
            },
            old(self).wf() ==> final (self).wf(),
    {
        if !contains_string(&self.search, search) {
            proof {
                if old(self).wf() {
                    lemma_distinct_push(string_views(self.search@), search@);
                }
            }
            let ghost pre = string_views(self.search@);
            self.search.push(search.clone());
            assert(string_views(self.search@) =~= pre.push(search@));
        }
    }

    /// Adds a server address unless it is already present.
    pub fn add_address(&mut self, address: &IpAddress)
        ensures
            final (self).search == old(self).search,
            final (self).spec_addresses() == if old(self).spec_addresses().contains(*address) {
                old(self).spec_addresses()
            } else {
                old(self).spec_addresses().push(*address)
            },
            old(self).wf() ==> final (self).wf(),
    {
        if !contains_ip(&self.addresses, address) {
            proof {
                if old(self).wf() {
                    lemma_distinct_push(self.addresses@, *address);
                }
            }
            self.addresses.push(*address);
        }
    }

    /// Removes a search domain; reports whether it was present.
    pub fn remove_search(&mut self, search: &String) -> (r: bool)
        ensures
            final (self).addresses == old(self).addresses,
            r == old(self).spec_search().contains(search@),
            final (self).spec_search() == remove_first(old(self).spec_search(), search@),
            old(self).wf() ==> final (self).wf(),
    {
        proof {
            if old(self).wf() {
                lemma_remove_first_distinct(string_views(self.search@), search@);
            }
        }
        let ghost pre = string_views(self.search@);
        let mut i: usize = 0;
        while i < self.search.len()
            invariant
                i <= self.search.len(),
                *self == *old(self),
                pre == string_views(self.search@),
                forall|j: int| 0 <= j < i ==> string_views(self.search@)[j] != search@,
            decreases self.search.len() - i,
        {
            if self.search[i] == *search {
                proof {
                    lemma_remove_first_at(pre, search@, i as int);
                    assert(pre.contains(search@));
                }
                self.search.remove(i);
                assert(string_views(self.search@) =~= pre.subrange(0, i as int) + pre.subrange(
                    i + 1,
                    pre.len() as int,
                ));
                return true;
            }
            i += 1;
        }
        proof {
            assert(!pre.contains(search@)) by {
                if pre.contains(search@) {
                    let k = choose|k: int| 0 <= k < pre.len() && pre[k] == search@;
                }
            }
            lemma_remove_first_absent(pre, search@);
        }
        false
    }

    /// Removes a server address; reports whether it was present.
    pub fn remove_address(&mut self, address: &IpAddress) -> (r: bool)
        ensures
            final (self).search == old(self).search,
            r == old(self).spec_addresses().contains(*address),
            final (self).spec_addresses() == remove_first(old(self).spec_addresses(), *address),
            old(self).wf() ==> final (self).wf(),
    {
        proof {
            if old(self).wf() {
                lemma_remove_first_distinct(self.addresses@, *address);
            }
        }
        let ghost pre = self.addresses@;
        let mut i: usize = 0;
        while i < self.addresses.len()
            invariant
                i <= self.addresses.len(),
                *self == *old(self),
                pre == self.addresses@,
                forall|j: int| 0 <= j < i ==> self.addresses@[j] != *address,
            decreases self.addresses.len() - i,
        {
            if self.addresses[i] == *address {
                proof {
                    lemma_remove_first_at(pre, *address, i as int);
                    assert(pre.contains(*address));
                }
                self.addresses.remove(i);
                return true;
            }
            i += 1;
        }
        proof {
            lemma_remove_first_absent(pre, *address);
        }
        false
    }
}

/// Whether some string in the vector has the given characters.
pub fn contains_string(v: &Vec<String>, x: &String) -> (r: bool)
    ensures
        r == string_views(v@).contains(x@),
{
    let mut i: usize = 0;
    while i < v.len()
        invariant
            i <= v.len(),
            forall|j: int| 0 <= j < i ==> string_views(v@)[j] != x@,
        decreases v.len() - i,
    {
        if v[i] == *x {
            assert(string_views(v@)[i as int] == x@);
            return true;
        }
        i += 1;
    }
    proof {
        if string_views(v@).contains(x@) {
            let k = choose|k: int| 0 <= k < v@.len() && string_views(v@)[k] == x@;
        }
    }
    false
}

/// Whether the vector holds the given address.
pub fn contains_ip(v: &Vec<IpAddress>, x: &IpAddress) -> (r: bool)
    ensures
        r == v@.contains(*x),
{
    let mut i: usize = 0;
    while i < v.len()
        invariant
            i <= v.len(),
            forall|j: int| 0 <= j < i ==> v@[j] != *x,
        decreases v.len() - i,
    {
        if v[i] == *x {
            return true;
        }
        i += 1;
    }
    false
}

} // verus!
