use vstd::prelude::*;

verus! {

/// What an identifier is, as a mathematical value.
pub struct IdentView {
    pub origin: Seq<char>,
    pub name: Seq<char>,
    pub version: Option<Seq<char>>,
    pub release: Option<Seq<char>>,
}

pub open spec fn opt_str_view(s: Option<String>) -> Option<Seq<char>> {
    match s {
        Some(t) => Some(t@),
        None => None,
    }
}

/// A package identifier: origin, name, and optionally version and release.
/// Two identifiers are equal exactly when every component is equal.
#[derive(Clone, Debug)]
pub struct PackageIdent {
    pub origin: String,
    pub name: String,
    pub version: Option<String>,
    pub release: Option<String>,
}

impl View for PackageIdent {
    type V = IdentView;

    open spec fn view(&self) -> IdentView {
        IdentView {
            origin: self.origin@,
            name: self.name@,
            version: opt_str_view(self.version),
            release: opt_str_view(self.release),
        }
    }
}

/// What a metadata lookup returns: the resolved identifier and the
/// dependency list advertised before download, which the archive may
/// contradict.
#[derive(Clone, Debug)]
pub struct PackageMetadata {
    pub ident: PackageIdent,
    pub deps: Vec<PackageIdent>,
}

/// The views of a sequence of identifiers.
pub open spec fn idents(s: Seq<PackageIdent>) -> Seq<IdentView> {
    s.map_values(|p: PackageIdent| p@)
}

fn same_opt(a: &Option<String>, b: &Option<String>) -> (r: bool)
    ensures
        r == (opt_str_view(*a) == opt_str_view(*b)),
{
    match (a, b) {
        (Some(x), Some(y)) => *x == *y,
        (None, None) => true,
        _ => false,
    }
}

impl PackageIdent {
    pub fn new(origin: String, name: String, version: Option<String>, release: Option<String>) -> (r: PackageIdent)
        ensures
            r.origin@ == origin@,
            r.name@ == name@,
            opt_str_view(r.version) == opt_str_view(version),
            opt_str_view(r.release) == opt_str_view(release),
    {
        PackageIdent { origin, name, version, release }
    }

    /// Full equality of all four components.
    pub fn same_as(&self, other: &PackageIdent) -> (r: bool)
        ensures
            r == (self@ == other@),
    {
        let a = self.origin == other.origin;
        let b = self.name == other.name;
        let c = same_opt(&self.version, &other.version);
        let d = same_opt(&self.release, &other.release);
        a && b && c && d
    }
}

impl PartialEq for PackageIdent {
    fn eq(&self, other: &PackageIdent) -> (r: bool) {
        self.same_as(other)
    }
}

impl vstd::std_specs::cmp::PartialEqSpecImpl for PackageIdent {
    open spec fn obeys_eq_spec() -> bool {
        true
    }

    open spec fn eq_spec(&self, other: &PackageIdent) -> bool {
        self@ == other@
    }
}

/// Whether `x` occurs in `v`, by full equality.
pub fn contains_ident(v: &Vec<PackageIdent>, x: &PackageIdent) -> (r: bool)
    ensures
        r == idents(v@).contains(x@),
{
    let mut i: usize = 0;
    while i < v.len()
        invariant
            i <= v.len(),
            forall|j: int| 0 <= j < i ==> v@[j]@ != x@,
        decreases v.len() - i,
    {
        if v[i].same_as(x) {
            assert(idents(v@)[i as int] == x@);
            return true;
        }
        i = i + 1;
    }
    assert(!idents(v@).contains(x@));
    false
}

} // verus!
