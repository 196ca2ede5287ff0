//! The root aggregate: the declarative network document held in memory.
use crate::ethernet::Ethernet;
use crate::util::distinct;
use vstd::prelude::*;

verus! {

/// The external renderer the document is written for.
#[derive(Clone, Copy, Debug, PartialEq, Eq, Structural)]
pub enum NetworkRenderer {
    NetworkD,
    NetworkManager,
}

/// The declarative model: a fixed schema version, the chosen renderer, and
/// the managed ethernets, unique by name.
pub struct Network {
    pub version: u32,
    pub renderer: NetworkRenderer,
    pub ethernets: Vec<Ethernet>,
}

/// The interface names, in order.
pub open spec fn eth_names(es: Seq<Ethernet>) -> Seq<Seq<char>> {
    Seq::new(es.len(), |i: int| es[i].name@)
}

pub open spec fn has_eth(es: Seq<Ethernet>, name: Seq<char>) -> bool {
    eth_names(es).contains(name)
}

/// The first interface with the given name.
pub open spec fn find_eth(es: Seq<Ethernet>, name: Seq<char>) -> Option<Ethernet>
    decreases es.len(),
{
    if es.len() == 0 {
        None
    } else if es[0].name@ == name {
        Some(es[0])
    } else {
        find_eth(es.drop_first(), name)
    }
}

/// es with e set under its name: the first entry of the same name is
/// replaced, otherwise e is appended.
pub open spec fn eth_upsert(es: Seq<Ethernet>, e: Ethernet) -> Seq<Ethernet>
    decreases es.len(),
{
    if es.len() == 0 {
        seq![e]
    } else if es[0].name@ == e.name@ {
        seq![e] + es.drop_first()
    } else {
        seq![es[0]] + eth_upsert(es.drop_first(), e)
    }
}

/// Replacing at the first matching index realizes the upsert.
pub proof fn lemma_eth_upsert_update(es: Seq<Ethernet>, e: Ethernet, i: int)
    requires
        0 <= i < es.len(),
        es[i].name@ == e.name@,
        forall|j: int| 0 <= j < i ==> es[j].name@ != e.name@,
    ensures
        eth_upsert(es, e) == es.update(i, e),
    decreases i,
{
    if i == 0 {
        assert(seq![e] + es.drop_first() =~= es.update(0, e));
    } else {
        let t = es.drop_first();
        assert(t[i - 1] == es[i]);
        assert(forall|j: int| 0 <= j < i - 1 ==> t[j] == es[j + 1] && t[j].name@ != e.name@);
        lemma_eth_upsert_update(t, e, i - 1);
        assert(seq![es[0]] + t.update(i - 1, e) =~= es.update(i, e));
    }
}

/// Appending realizes the upsert when no name matches.
pub proof fn lemma_eth_upsert_push(es: Seq<Ethernet>, e: Ethernet)
    requires
        forall|j: int| 0 <= j < es.len() ==> es[j].name@ != e.name@,
    ensures
        eth_upsert(es, e) == es.push(e),
    decreases es.len(),
{
    if es.len() == 0 {
        assert(eth_upsert(es, e) =~= es.push(e));
    } else {
        let t = es.drop_first();
        assert(forall|j: int| 0 <= j < t.len() ==> t[j] == es[j + 1] && t[j].name@ != e.name@);
        lemma_eth_upsert_push(t, e);
        assert(seq![es[0]] + t.push(e) =~= es.push(e));
    }
}

/// Every name present after an upsert was present before or is the new one.
pub proof fn lemma_eth_upsert_names(es: Seq<Ethernet>, e: Ethernet)
    ensures
        forall|n: Seq<char>|
            has_eth(eth_upsert(es, e), n) ==> has_eth(es, n) || n == e.name@,
    decreases es.len(),
{
    let u = eth_upsert(es, e);
    if es.len() == 0 {
        assert forall|n: Seq<char>| has_eth(u, n) implies has_eth(es, n) || n == e.name@ by {
            let k = choose|k: int| 0 <= k < u.len() && u[k].name@ == n;
        }
    } else if es[0].name@ == e.name@ {
        assert forall|n: Seq<char>| has_eth(u, n) implies has_eth(es, n) || n == e.name@ by {
            let k = choose|k: int| 0 <= k < u.len() && u[k].name@ == n;
            if k > 0 {
                assert(u[k] == es.drop_first()[k - 1]);
                assert(eth_names(es)[k] == n);
            }
        }
    } else {
        lemma_eth_upsert_names(es.drop_first(), e);
        assert forall|n: Seq<char>| has_eth(u, n) implies has_eth(es, n) || n == e.name@ by {
            let k = choose|k: int| 0 <= k < u.len() && u[k].name@ == n;
            if k == 0 {
                assert(eth_names(es)[0] == n);
            } else {
                assert(u[k] == eth_upsert(es.drop_first(), e)[k - 1]);
                assert(eth_names(eth_upsert(es.drop_first(), e))[k - 1] == n);
                assert(has_eth(eth_upsert(es.drop_first(), e), n));
                if has_eth(es.drop_first(), n) {
                    let m = choose|m: int|
                        0 <= m < es.drop_first().len() && es.drop_first()[m].name@ == n;
                    assert(eth_names(es)[m + 1] == n);
                }
            }
        }
    }
}

/// An upsert keeps interface names distinct.
pub proof fn lemma_eth_upsert_distinct(es: Seq<Ethernet>, e: Ethernet)
    requires
        distinct(eth_names(es)),
    ensures
        distinct(eth_names(eth_upsert(es, e))),
    decreases es.len(),
{
    let u = eth_upsert(es, e);
    let t = es.drop_first();
    if es.len() == 0 {
    } else {
        assert(distinct(eth_names(t))) by {
            assert(forall|i: int, j: int|
                0 <= i < j < t.len() ==> eth_names(t)[i] == eth_names(es)[i + 1] && eth_names(
                    t,
                )[j] == eth_names(es)[j + 1]);
        }
        if es[0].name@ == e.name@ {
            assert forall|i: int, j: int| 0 <= i < j < u.len() implies eth_names(u)[i]
                != eth_names(u)[j] by {
                if i == 0 {
                    assert(u[j] == t[j - 1]);
                    assert(eth_names(es)[0] != eth_names(es)[j]);
                } else {
                    assert(u[i] == t[i - 1] && u[j] == t[j - 1]);
                    assert(eth_names(es)[i] != eth_names(es)[j]);
                }
            }
        } else {
            lemma_eth_upsert_distinct(t, e);
            lemma_eth_upsert_names(t, e);
            assert forall|i: int, j: int| 0 <= i < j < u.len() implies eth_names(u)[i]
                != eth_names(u)[j] by {
                if i == 0 {
                    assert(u[j] == eth_upsert(t, e)[j - 1]);
                    assert(eth_names(eth_upsert(t, e))[j - 1] == u[j].name@);
                    assert(has_eth(eth_upsert(t, e), u[j].name@));
                    if u[j].name@ == es[0].name@ {
                        if has_eth(t, u[j].name@) {
                            let m = choose|m: int| 0 <= m < t.len() && t[m].name@ == u[j].name@;
                            assert(eth_names(es)[m + 1] == eth_names(es)[0]);
                            assert(false);
                        } else {
                            assert(u[j].name@ == e.name@);
                            assert(false);
                        }
                    }
                } else {
                    assert(u[i] == eth_upsert(t, e)[i - 1]);
                    assert(u[j] == eth_upsert(t, e)[j - 1]);
                    assert(eth_names(eth_upsert(t, e))[i - 1] != eth_names(eth_upsert(t, e))[j
                        - 1]);
                }
            }
        }
    }
}

impl Default for Network {
    /// The same document `new` builds.
    fn default() -> (r: Self)
        ensures
            r.version == 2,
            r.renderer == NetworkRenderer::NetworkManager,
            r.ethernets@ =~= Seq::<Ethernet>::empty(),
            r.wf(),
    {
        Self::new()
    }
}

impl Network {
    /// Interface names are distinct and every interface is well formed.
    pub open spec fn wf(self) -> bool {
        distinct(eth_names(self.ethernets@)) && forall|i: int|
            0 <= i < self.ethernets@.len() ==> self.ethernets@[i].wf()
    }

    /// The default document: schema version 2, NetworkManager as renderer,
    /// no interfaces.
    pub fn new() -> (r: Self)
        ensures
            r.version == 2,
            r.renderer == NetworkRenderer::NetworkManager,
            r.ethernets@ =~= Seq::<Ethernet>::empty(),
            r.wf(),
    {
        Network { version: 2, renderer: NetworkRenderer::NetworkManager, ethernets: Vec::new() }
    }

    pub fn get_ethernets(&self) -> (r: &Vec<Ethernet>)
        ensures
            r@ == self.ethernets@,
    {
        &self.ethernets
    }

    /// The first interface with the given name, if any.
    pub fn get_ethernet<'a>(&'a self, name: &String) -> (r: Option<&'a Ethernet>)
        ensures
            match r {
                Some(e) => find_eth(self.ethernets@, name@) == Some(*e),
                None => find_eth(self.ethernets@, name@) is None,
            },
    {
        assert(self.ethernets@.skip(0) =~= self.ethernets@);
        find_eth_from(&self.ethernets, name, 0)
    }

    /// Sets the interface under its name: an entry with the same name is
    /// overwritten, otherwise the interface is appended.
    pub fn add_ethernet(&mut self, ethernet: Ethernet)
        ensures
            final (self).version == old(self).version,
            final (self).renderer == old(self).renderer,
            final (self).ethernets@ == eth_upsert(old(self).ethernets@, ethernet),
            old(self).wf() && ethernet.wf() ==> final (self).wf(),
    {
        let ghost pre = self.ethernets@;
        let ghost newe = ethernet;
        let mut i: usize = 0;
        while i < self.ethernets.len()
            invariant
                i <= self.ethernets.len(),
                *self == *old(self),
                pre == self.ethernets@,
                newe == ethernet,
                forall|j: int| 0 <= j < i ==> self.ethernets@[j].name@ != ethernet.name@,
            decreases self.ethernets.len() - i,
        {
            if self.ethernets[i].name == ethernet.name {
                proof {
                    lemma_eth_upsert_update(pre, newe, i as int);
                    if old(self).wf() {
                        lemma_eth_upsert_distinct(pre, newe);
                    }
                }
                self.ethernets.set(i, ethernet);
                return ;
            }
            i += 1;
        }
        proof {
            lemma_eth_upsert_push(pre, newe);
            if old(self).wf() {
                lemma_eth_upsert_distinct(pre, newe);
            }
        }
        self.ethernets.push(ethernet);
    }

    /// Replaces the interface list wholesale.
    pub fn set_ethernets(&mut self, ethernets: Vec<Ethernet>)
        ensures
            *final (self) == (Network { ethernets, ..*old(self) }),
    {
        self.ethernets = ethernets;
    }
}

/// The first interface with the given name among es[i..].
fn find_eth_from<'a>(es: &'a Vec<Ethernet>, name: &String, i: usize) -> (r: Option<&'a Ethernet>)
    requires
        i <= es.len(),
    ensures
        match r {
            Some(e) => find_eth(es@.skip(i as int), name@) == Some(*e),
            None => find_eth(es@.skip(i as int), name@) is None,
        },
    decreases es.len() - i,
{
    if i == es.len() {
        assert(es@.skip(i as int) =~= Seq::<Ethernet>::empty());
        None
    } else {
        proof {
            assert(es@.skip(i as int)[0] == es@[i as int]);
            assert(es@.skip(i as int).drop_first() =~= es@.skip(i + 1));
        }
        if es[i].name == *name {
            Some(&es[i])
        } else {
            find_eth_from(es, name, i + 1)
        }
    }
}

} // verus!

verus! {

/// An interface is found exactly when its name is present.
pub proof fn lemma_find_eth_some(es: Seq<Ethernet>, name: Seq<char>)
    ensures
        find_eth(es, name) is Some <==> has_eth(es, name),
    decreases es.len(),
{
    if es.len() > 0 {
        let t = es.drop_first();
        lemma_find_eth_some(t, name);
        if es[0].name@ == name {
            assert(eth_names(es)[0] == name);
        } else {
            assert(has_eth(es, name) <==> has_eth(t, name)) by {
                if has_eth(es, name) {
                    let k = choose|k: int| 0 <= k < es.len() && eth_names(es)[k] == name;
                    assert(es[k].name@ == name);
                    assert(k > 0);
                    assert(eth_names(t)[k - 1] == name);
                }
                if has_eth(t, name) {
                    let k = choose|k: int| 0 <= k < t.len() && eth_names(t)[k] == name;
                    assert(es[k + 1].name@ == name);
                    assert(eth_names(es)[k + 1] == name);
                }
            }
        }
    }
}

/// The position of the first interface with the given name, or -1.
pub open spec fn first_eth_index(es: Seq<Ethernet>, name: Seq<char>) -> int
    decreases es.len(),
{
    if es.len() == 0 {
        -1
    } else if es[0].name@ == name {
        0
    } else {
        let r = first_eth_index(es.drop_first(), name);
        if r < 0 {
            -1
        } else {
            r + 1
        }
    }
}

/// The first index is in range, carries the name, and nothing before it
/// does; it is negative exactly when the name is absent.
pub proof fn lemma_first_eth_index(es: Seq<Ethernet>, name: Seq<char>)
    ensures
        first_eth_index(es, name) >= 0 <==> has_eth(es, name),
        first_eth_index(es, name) >= 0 ==> first_eth_index(es, name) < es.len() && es[
            first_eth_index(es, name)].name@ == name && forall|j: int|
            0 <= j < first_eth_index(es, name) ==> es[j].name@ != name,
    decreases es.len(),
{
    if es.len() > 0 {
        let t = es.drop_first();
        lemma_first_eth_index(t, name);
        if es[0].name@ == name {
            assert(eth_names(es)[0] == name);
        } else {
            assert(has_eth(es, name) <==> has_eth(t, name)) by {
                if has_eth(es, name) {
                    let k = choose|k: int| 0 <= k < es.len() && eth_names(es)[k] == name;
                    assert(es[k].name@ == name);
                    assert(k > 0);
                    assert(eth_names(t)[k - 1] == name);
                }
                if has_eth(t, name) {
                    let k = choose|k: int| 0 <= k < t.len() && eth_names(t)[k] == name;
                    assert(es[k + 1].name@ == name);
                    assert(eth_names(es)[k + 1] == name);
                }
            }
            if first_eth_index(t, name) >= 0 {
                assert(forall|j: int|
                    1 <= j < first_eth_index(es, name) ==> es[j] == t[j - 1] && es[j].name@
                        != name);
            }
        }
    }
}

/// Replacing one interface by a well-formed one of the same name keeps the
/// document well formed.
pub proof fn lemma_network_update_wf(old_es: Seq<Ethernet>, new_es: Seq<Ethernet>, i: int)
    requires
        0 <= i < old_es.len(),
        new_es.len() == old_es.len(),
        forall|j: int| 0 <= j < old_es.len() && j != i ==> new_es[j] == old_es[j],
        new_es[i].name@ == old_es[i].name@,
        new_es[i].wf(),
        distinct(eth_names(old_es)),
        forall|j: int| 0 <= j < old_es.len() ==> (#[trigger] old_es[j]).wf(),
    ensures
        distinct(eth_names(new_es)),
        forall|j: int| 0 <= j < new_es.len() ==> (#[trigger] new_es[j]).wf(),
{
    assert(eth_names(new_es) =~= eth_names(old_es));
}

} // verus!

verus! {

/// An index carrying the name with nothing before it is the first index.
pub proof fn lemma_first_eth_index_at(es: Seq<Ethernet>, name: Seq<char>, i: int)
    requires
        0 <= i < es.len(),
        es[i].name@ == name,
        forall|j: int| 0 <= j < i ==> es[j].name@ != name,
    ensures
        first_eth_index(es, name) == i,
    decreases i,
{
    if i == 0 {
    } else {
        let t = es.drop_first();
        assert(t[i - 1] == es[i]);
        assert(forall|j: int| 0 <= j < i - 1 ==> t[j] == es[j + 1] && t[j].name@ != name);
        lemma_first_eth_index_at(t, name, i - 1);
    }
}

/// The position of the first interface with the given name, if any.
pub fn eth_index_of(es: &Vec<Ethernet>, name: &String) -> (r: Option<usize>)
    ensures
        match r {
            Some(i) => first_eth_index(es@, name@) == i && i < es@.len() && es@[
                i as int].name@ == name@ && has_eth(es@, name@),
            None => first_eth_index(es@, name@) == -1 && !has_eth(es@, name@),
        },
{
    let mut i: usize = 0;
    while i < es.len()
        invariant
            i <= es.len(),
            forall|j: int| 0 <= j < i ==> es@[j].name@ != name@,
        decreases es.len() - i,
    {
        if es[i].name == *name {
            proof {
                lemma_first_eth_index_at(es@, name@, i as int);
                assert(eth_names(es@)[i as int] == name@);
            }
            return Some(i);
        }
        i += 1;
    }
    proof {
        lemma_first_eth_index(es@, name@);
        if has_eth(es@, name@) {
            let k = choose|k: int| 0 <= k < es@.len() && eth_names(es@)[k] == name@;
            assert(es@[k].name@ == name@);
        }
    }
    None
}

} // verus!
