//! Identifiers of resolved package instances.
//!
//! A snapshot names each resolved package instance by its *full* identity:
//! name, version and the source it was resolved from.  Two snapshots may
//! hold the "same" logical package under different sources, so matching of
//! workspace roots and of force-modified members works on the *bare*
//! projection, `(name, version)`, while graph lookups use full identities.
//! Keeping the two as distinct types avoids accidental mismatches.

use vstd::prelude::*;

verus! {

/// Mathematical value of a bare identifier: a `(name, version)` pair.
pub ghost struct BareKey {
    pub name: Seq<char>,
    pub version: Seq<char>,
}

/// Mathematical value of a full identifier: name, version and source.
pub ghost struct FullKey {
    pub name: Seq<char>,
    pub version: Seq<char>,
    pub source: Seq<char>,
}

/// Projects a full identifier down to its `(name, version)` pair.
pub open spec fn bare_of(k: FullKey) -> BareKey {
    BareKey { name: k.name, version: k.version }
}

/// A `(name, version)` pair: the identity of a package as it is matched
/// against workspace roots and force-modified members, and as it appears
/// in reported trails.
#[derive(Debug, PartialEq, Eq)]
pub struct BareId {
    pub name: String,
    pub version: String,
}

/// The identity of one resolved package instance within one snapshot:
/// `(name, version, source)`.
#[derive(Debug, PartialEq, Eq)]
pub struct FullId {
    pub name: String,
    pub version: String,
    pub source: String,
}

impl View for BareId {
    type V = BareKey;

    open spec fn view(&self) -> BareKey {
        BareKey { name: self.name@, version: self.version@ }
    }
}

impl DeepView for BareId {
    type V = BareKey;

    open spec fn deep_view(&self) -> BareKey {
        self@
    }
}

impl View for FullId {
    type V = FullKey;

    open spec fn view(&self) -> FullKey {
        FullKey { name: self.name@, version: self.version@, source: self.source@ }
    }
}

impl DeepView for FullId {
    type V = FullKey;

    open spec fn deep_view(&self) -> FullKey {
        self@
    }
}

impl BareId {
    /// A fresh copy with the same `(name, version)` value.
    pub fn duplicate(&self) -> (r: BareId)
        ensures
            r@ == self@,
    {
        BareId { name: self.name.clone(), version: self.version.clone() }
    }
}

impl FullId {
    /// A fresh copy with the same `(name, version, source)` value.
    pub fn duplicate(&self) -> (r: FullId)
        ensures
            r@ == self@,
    {
        FullId {
            name: self.name.clone(),
            version: self.version.clone(),
            source: self.source.clone(),
        }
    }
}

/// Decides equality of two bare identifiers.
pub fn bare_eq(a: &BareId, b: &BareId) -> (r: bool)
    ensures
        r == (a@ == b@),
{
    let r = a.name == b.name && a.version == b.version;
    proof {
        if a@ == b@ {
            assert(a.name@ == b.name@);
            assert(a.version@ == b.version@);
        }
    }
    r
}

/// Decides equality of two full identifiers.
pub fn full_eq(a: &FullId, b: &FullId) -> (r: bool)
    ensures
        r == (a@ == b@),
{
    let r = a.name == b.name && a.version == b.version && a.source == b.source;
    proof {
        if a@ == b@ {
            assert(a.name@ == b.name@);
            assert(a.version@ == b.version@);
            assert(a.source@ == b.source@);
        }
    }
    r
}

/// Projects a full identifier down to the `(name, version)` pair under
/// which it is matched and reported, dropping the source.
pub fn strip_source(id: &FullId) -> (r: BareId)
    ensures
        r@ == bare_of(id@),
{
    BareId { name: id.name.clone(), version: id.version.clone() }
}

/// Does the list hold this `(name, version)` pair?
pub fn contains_bare(v: &Vec<BareId>, x: &BareId) -> (r: bool)
    ensures
        r == v.deep_view().contains(x@),
{
    let n = v.len();
    for i in 0..n
        invariant
            n == v.len(),
            forall|j: int| 0 <= j < i ==> v.deep_view()[j] != x@,
    {
        if bare_eq(&v[i], x) {
            assert(v.deep_view()[i as int] == x@);
            return true;
        }
    }
    false
}

/// Does the list hold this full identifier?
pub fn contains_full(v: &Vec<FullId>, x: &FullId) -> (r: bool)
    ensures
        r == v.deep_view().contains(x@),
{
    let n = v.len();
    for i in 0..n
        invariant
            n == v.len(),
            forall|j: int| 0 <= j < i ==> v.deep_view()[j] != x@,
    {
        if full_eq(&v[i], x) {
            assert(v.deep_view()[i as int] == x@);
            return true;
        }
    }
    false
}

/// A fresh copy of a list of bare identifiers, with the same value.
pub fn clone_bares(v: &Vec<BareId>) -> (r: Vec<BareId>)
    ensures
        r.deep_view() == v.deep_view(),
{
    let mut r: Vec<BareId> = Vec::new();
    let n = v.len();
    for i in 0..n
        invariant
            n == v.len(),
            r.deep_view() == v.deep_view().take(i as int),
    {
        let d = v[i].duplicate();
        let ghost before = r.deep_view();
        r.push(d);
        proof {
            assert(r.deep_view().len() == before.len() + 1);
            assert forall|j: int| 0 <= j <= i implies #[trigger] r.deep_view()[j]
                == v.deep_view()[j] by {
                if j < i {
                    assert(r.deep_view()[j] == before[j]);
                    assert(before[j] == v.deep_view().take(i as int)[j]);
                }
            }
            assert(r.deep_view() =~= v.deep_view().take(i as int + 1));
        }
    }
    proof {
        assert(r.deep_view() =~= v.deep_view());
    }
    r
}

/// A fresh copy of a list of full identifiers, with the same value.
pub fn clone_fulls(v: &Vec<FullId>) -> (r: Vec<FullId>)
    ensures
        r.deep_view() == v.deep_view(),
{
    let mut r: Vec<FullId> = Vec::new();
    let n = v.len();
    for i in 0..n
        invariant
            n == v.len(),
            r.deep_view() == v.deep_view().take(i as int),
    {
        let d = v[i].duplicate();
        let ghost before = r.deep_view();
        r.push(d);
        proof {
            assert(r.deep_view().len() == before.len() + 1);
            assert forall|j: int| 0 <= j <= i implies #[trigger] r.deep_view()[j]
                == v.deep_view()[j] by {
                if j < i {
                    assert(r.deep_view()[j] == before[j]);
                    assert(before[j] == v.deep_view().take(i as int)[j]);
                }
            }
            assert(r.deep_view() =~= v.deep_view().take(i as int + 1));
        }
    }
    proof {
        assert(r.deep_view() =~= v.deep_view());
    }
    r
}

} // verus!
