//! Packages, their identity, and lists of them.

use vstd::prelude::*;

use crate::source::PackageSource;

verus! {

/// One package to keep installed, with the backend it comes from.
#[derive(Debug)]
pub struct Package {
    /// Name of the package as the backend knows it.
    pub name: String,
    /// Backend to install the package through.
    pub source: PackageSource,
    /// Canonical path of the file that declared the package; for messages
    /// only, never part of the package's identity.
    pub src: String,
}

/// A list of packages, in declaration order.
pub struct PackageList(pub Vec<Package>);

/// The identity of a package: its name and its backend.
pub open spec fn key_of(p: Package) -> (Seq<char>, PackageSource) {
    (p.name@, p.source)
}

/// Whether some package of `s` has the identity `k`.
pub open spec fn has_key(s: Seq<Package>, k: (Seq<char>, PackageSource)) -> bool {
    exists|i: int| 0 <= i < s.len() && key_of(#[trigger] s[i]) == k
}

/// `j` is the position of the first package of `s` whose identity is `k`.
pub open spec fn first_at(s: Seq<Package>, k: (Seq<char>, PackageSource), j: int) -> bool {
    &&& 0 <= j < s.len()
    &&& key_of(s[j]) == k
    &&& forall|i: int| 0 <= i < j ==> key_of(#[trigger] s[i]) != k
}

/// The first package of each identity in `s`, in the order of `s`.
pub open spec fn dedup_packages(s: Seq<Package>) -> Seq<Package>
    decreases s.len(),
{
    if s.len() == 0 {
        seq![]
    } else {
        let d = dedup_packages(s.drop_last());
        if has_key(d, key_of(s.last())) {
            d
        } else {
            d.push(s.last())
        }
    }
}

impl Package {
    /// A package with no declaring file recorded yet.
    pub fn new(name: String, source: PackageSource) -> (r: Package)
        ensures
            r.name == name,
            r.source == source,
            r.src@ == Seq::<char>::empty(),
    {
        Package { name, source, src: String::new() }
    }

    /// Records the canonical path of the file that declared this package.
    pub fn add_source_debug_path(&mut self, file_path: &String)
        ensures
            final(self).name == old(self).name,
            final(self).source == old(self).source,
            final(self).src@ == file_path@,
    {
        self.src = file_path.clone();
    }

    /// Whether two packages have the same identity.
    pub fn same_package(&self, other: &Package) -> (r: bool)
        ensures
            r == (key_of(*self) == key_of(*other)),
    {
        self.name == other.name && self.source == other.source
    }
}

impl PartialEq for Package {
    fn eq(&self, other: &Package) -> (r: bool) {
        self.name == other.name && self.source == other.source
    }
}

impl vstd::std_specs::cmp::PartialEqSpecImpl for Package {
    open spec fn obeys_eq_spec() -> bool {
        true
    }

    open spec fn eq_spec(&self, other: &Package) -> bool {
        key_of(*self) == key_of(*other)
    }
}

/// Whether `list` holds a package with the identity of `p`.
fn contains_package(list: &Vec<Package>, p: &Package) -> (r: bool)
    ensures
        r == has_key(list@, key_of(*p)),
{
    let mut i: usize = 0;
    while i < list.len()
        invariant
            i <= list.len(),
            forall|j: int| 0 <= j < i ==> key_of(#[trigger] list@[j]) != key_of(*p),
        decreases list.len() - i,
    {
        if list[i].same_package(p) {
            return true;
        }
        i = i + 1;
    }
    false
}

impl PackageList {
    /// Keeps the first package of each identity, in order, and drops the
    /// later ones.
    pub fn remove_duplicates(self) -> (r: PackageList)
        ensures
            r.0@ == dedup_packages(self.0@),
    {
        let ghost orig = self.0@;
        let mut rest = self.0;
        let mut result: Vec<Package> = Vec::new();
        let ghost mut k: int = 0;
        while rest.len() > 0
            invariant
                0 <= k <= orig.len(),
                rest@ == orig.subrange(k, orig.len() as int),
                result@ == dedup_packages(orig.take(k)),
            decreases rest.len(),
        {
            let p = rest.remove(0);
            proof {
                assert(orig.take(k + 1).drop_last() =~= orig.take(k));
                assert(orig.take(k + 1).last() == p);
                k = k + 1;
                assert(rest@ =~= orig.subrange(k, orig.len() as int));
            }
            if !contains_package(&result, &p) {
                result.push(p);
            }
        }
        proof {
            assert(orig.take(k) =~= orig);
        }
        PackageList(result)
    }
}

/// Deduplication keeps exactly one package of each identity that occurs,
/// each the first of its identity, in the order of first occurrence.
pub proof fn lemma_dedup_first_seen(s: Seq<Package>)
    ensures
        forall|i: int, j: int|
            0 <= i < j < dedup_packages(s).len() ==> key_of(dedup_packages(s)[i]) != key_of(
                dedup_packages(s)[j],
            ),
        forall|k: (Seq<char>, PackageSource)| has_key(s, k) <==> has_key(dedup_packages(s), k),
        forall|i: int|
            0 <= i < dedup_packages(s).len() ==> exists|j: int|
                first_at(s, key_of(#[trigger] dedup_packages(s)[i]), j) && s[j] == dedup_packages(s)[i],
        forall|i: int, i2: int, j: int, j2: int|
            0 <= i < i2 < dedup_packages(s).len() && first_at(s, key_of(dedup_packages(s)[i]), j)
                && first_at(s, key_of(dedup_packages(s)[i2]), j2) ==> j < j2,
    decreases s.len(),
{
    if s.len() > 0 {
        let s0 = s.drop_last();
        let x = s.last();
        let d0 = dedup_packages(s0);
        let d = dedup_packages(s);
        lemma_dedup_first_seen(s0);
        assert forall|k: (Seq<char>, PackageSource)| has_key(s, k) <==> (has_key(s0, k) || key_of(x) == k) by {
            if has_key(s, k) {
                let i = choose|i: int| 0 <= i < s.len() && key_of(#[trigger] s[i]) == k;
                if i < s0.len() {
                    assert(key_of(s0[i]) == k);
                }
            }
            if has_key(s0, k) {
                let i = choose|i: int| 0 <= i < s0.len() && key_of(#[trigger] s0[i]) == k;
                assert(key_of(s[i]) == k);
            }
            if key_of(x) == k {
                assert(key_of(s[s.len() - 1]) == k);
            }
        }
        // a first position in the prefix is a first position in `s`, and the
        // converse holds for every identity that the prefix has
        assert forall|k: (Seq<char>, PackageSource), j: int| first_at(s0, k, j) implies first_at(s, k, j) by {
            assert forall|i: int| 0 <= i < j implies key_of(#[trigger] s[i]) != k by {
                assert(s[i] == s0[i]);
            }
        }
        assert forall|k: (Seq<char>, PackageSource), j: int|
            first_at(s, k, j) && j < s0.len() implies first_at(s0, k, j) by {
            assert forall|i: int| 0 <= i < j implies key_of(#[trigger] s0[i]) != k by {
                assert(s[i] == s0[i]);
            }
        }
        assert forall|k: (Seq<char>, PackageSource), j: int|
            first_at(s, k, j) && has_key(s0, k) implies j < s0.len() by {
            if j == s0.len() {
                let i = choose|i: int| 0 <= i < s0.len() && key_of(#[trigger] s0[i]) == k;
                assert(key_of(s[i]) == k);
            }
        }
        if !has_key(d0, key_of(x)) {
            assert(d == d0.push(x));
            assert(!has_key(s0, key_of(x)));
            assert forall|i: int| 0 <= i < s.len() - 1 implies key_of(#[trigger] s[i]) != key_of(x) by {
                assert(s[i] == s0[i]);
            }
            assert(first_at(s, key_of(x), s.len() - 1));
            assert forall|k: (Seq<char>, PackageSource)| has_key(d0, k) implies has_key(d, k) by {
                let i = choose|i: int| 0 <= i < d0.len() && key_of(#[trigger] d0[i]) == k;
                assert(d[i] == d0[i]);
            }
            assert forall|k: (Seq<char>, PackageSource)| has_key(d, k) implies (has_key(d0, k) || key_of(x) == k) by {
                let i = choose|i: int| 0 <= i < d.len() && key_of(#[trigger] d[i]) == k;
                if i < d0.len() {
                    assert(d[i] == d0[i]);
                }
            }
            assert forall|i: int| 0 <= i < d.len() implies exists|j: int|
                first_at(s, key_of(#[trigger] d[i]), j) && s[j] == d[i] by {
                if i < d0.len() {
                    assert(d[i] == d0[i]);
                    let j = choose|j: int| first_at(s0, key_of(d0[i]), j) && s0[j] == d0[i];
                    assert(first_at(s, key_of(d[i]), j) && s[j] == d[i]);
                } else {
                    assert(first_at(s, key_of(d[i]), s.len() - 1) && s[s.len() - 1] == d[i]);
                }
            }
            assert forall|i: int, j: int| 0 <= i < j < d.len() implies key_of(d[i]) != key_of(d[j]) by {
                assert(d[i] == d0[i]);
                if j == d0.len() {
                    assert(key_of(d0[i]) == key_of(d0[i]));
                } else {
                    assert(d[j] == d0[j]);
                }
            }
            assert forall|i: int, i2: int, j: int, j2: int|
                0 <= i < i2 < d.len() && first_at(s, key_of(d[i]), j) && first_at(s, key_of(d[i2]), j2)
                implies j < j2 by {
                assert(d[i] == d0[i]);
                assert(has_key(d0, key_of(d0[i])));
                assert(j < s0.len());
                assert(first_at(s0, key_of(d[i]), j));
                if i2 < d0.len() {
                    assert(d[i2] == d0[i2]);
                    assert(has_key(d0, key_of(d0[i2])));
                    assert(first_at(s0, key_of(d[i2]), j2));
                } else {
                    assert(first_at(s, key_of(x), s.len() - 1));
                    if j2 < s.len() - 1 {
                        assert(key_of(s[j2]) == key_of(x));
                    }
                }
            }
            assert forall|k: (Seq<char>, PackageSource)| has_key(s, k) <==> has_key(d, k) by {
                if key_of(x) == k {
                    assert(key_of(d[d.len() - 1]) == k);
                }
            }
        } else {
            assert(d == d0);
            assert forall|k: (Seq<char>, PackageSource)| has_key(s, k) <==> has_key(d, k) by {
                if key_of(x) == k {
                    assert(has_key(d0, k));
                }
            }
            assert forall|i: int| 0 <= i < d.len() implies exists|j: int|
                first_at(s, key_of(#[trigger] d[i]), j) && s[j] == d[i] by {
                let j = choose|j: int| first_at(s0, key_of(d0[i]), j) && s0[j] == d0[i];
                assert(first_at(s, key_of(d[i]), j) && s[j] == d[i]);
            }
            assert forall|i: int, i2: int, j: int, j2: int|
                0 <= i < i2 < d.len() && first_at(s, key_of(d[i]), j) && first_at(s, key_of(d[i2]), j2)
                implies j < j2 by {
                assert(has_key(d0, key_of(d0[i])));
                assert(has_key(d0, key_of(d0[i2])));
                assert(first_at(s0, key_of(d[i]), j));
                assert(first_at(s0, key_of(d[i2]), j2));
            }
        }
    }
}

} // verus!
