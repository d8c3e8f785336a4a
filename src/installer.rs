use vstd::prelude::*;
use crate::closure::{select, push_deps, initial_pending};
use crate::package::{contains_ident, idents, IdentView, PackageIdent};

verus! {

/// The state of one installation run, as mathematical values.
pub struct InstallState {
    /// Identifiers installed so far in this run, in order.
    pub installed: Seq<IdentView>,
    /// Identifiers still to be handled; the last one is handled next.
    pub pending: Seq<IdentView>,
}

pub open spec fn opt_ident_view(o: Option<PackageIdent>) -> Option<IdentView> {
    match o {
        Some(p) => Some(p@),
        None => None,
    }
}

/// The decisions of one installation run. The caller fetches and unpacks;
/// the installer says what to fetch next and records what was unpacked.
/// The set of installed identifiers lives only as long as the run.
pub struct Installer {
    installed: Vec<PackageIdent>,
    pending: Vec<PackageIdent>,
}

impl View for Installer {
    type V = InstallState;

    closed spec fn view(&self) -> InstallState {
        InstallState { installed: idents(self.installed@), pending: idents(self.pending@) }
    }
}

impl Installer {
    /// Starts a run for `target` whose metadata advertises `deps`: the
    /// dependencies are handled first, in order, and the target last.
    pub fn new(target: PackageIdent, deps: Vec<PackageIdent>) -> (r: Installer)
        ensures
            r@.installed == Seq::<IdentView>::empty(),
            r@.pending == initial_pending(target@, idents(deps@)),
    {
        let mut pending: Vec<PackageIdent> = Vec::new();
        pending.push(target);
        let mut r = Installer { installed: Vec::new(), pending };
        assert(idents(r.pending@) =~= seq![target@]);
        r.push_all(deps);
        r
    }

    fn push_all(&mut self, deps: Vec<PackageIdent>)
        ensures
            final(self)@.installed == old(self)@.installed,
            final(self)@.pending == push_deps(old(self)@.pending, idents(deps@)),
    {
        let mut deps = deps;
        let ghost d0 = idents(deps@);
        while deps.len() > 0
            invariant
                self@.installed == old(self)@.installed,
                idents(deps@) == d0.subrange(0, deps@.len() as int),
                deps@.len() <= d0.len(),
                self@.pending == old(self)@.pending + d0.subrange(deps@.len() as int, d0.len() as int).reverse(),
            decreases deps.len(),
        {
            let ghost before = self@.pending;
            let ghost n = deps@.len() as int;
            let ghost ds = deps@;
            let d = deps.pop().unwrap();
            assert(d@ == idents(ds)[n - 1]);
            assert(d0[n - 1] == d0.subrange(0, n)[n - 1]);
            self.pending.push(d);
            assert(idents(deps@) =~= d0.subrange(0, n - 1));
            assert(self@.pending =~= before.push(d0[n - 1]));
            assert(d0.subrange(n - 1, d0.len() as int).reverse() =~=
                d0.subrange(n, d0.len() as int).reverse().push(d0[n - 1]));
        }
        assert(d0.subrange(0, d0.len() as int) =~= d0);
    }

    /// Pops pending identifiers until one that is not installed yet, and
    /// returns it: it is to be fetched, checked and unpacked. `None` means
    /// the run is complete.
    pub fn next_target(&mut self) -> (r: Option<PackageIdent>)
        ensures
            final(self)@.installed == old(self)@.installed,
            (final(self)@.pending, opt_ident_view(r)) == select(old(self)@.installed, old(self)@.pending),
    {
        loop
            invariant
                self@.installed == old(self)@.installed,
                select(self@.installed, self@.pending) == select(old(self)@.installed, old(self)@.pending),
            decreases self@.pending.len(),
        {
            let ghost p = self@.pending;
            match self.pending.pop() {
                None => {
                    return None;
                },
                Some(x) => {
                    assert(self@.pending =~= p.drop_last());
                    if !contains_ident(&self.installed, &x) {
                        return Some(x);
                    }
                },
            }
        }
    }

    /// Records that the archive fetched for the last target, whose own
    /// identifier is `ident` and whose own dependency list is `deps`, has
    /// been unpacked: `ident` joins the installed identifiers and `deps` are
    /// handled next, the first one first. The archive's list is the one
    /// followed, whatever the metadata said before the download.
    pub fn record(&mut self, ident: PackageIdent, deps: Vec<PackageIdent>)
        ensures
            final(self)@.installed == old(self)@.installed.push(ident@),
            final(self)@.pending == push_deps(old(self)@.pending, idents(deps@)),
    {
        self.installed.push(ident);
        assert(self@.installed =~= old(self)@.installed.push(ident@));
        self.push_all(deps);
    }

    /// The identifiers installed so far in this run, in order.
    pub fn installed(&self) -> (r: &Vec<PackageIdent>)
        ensures
            idents(r@) == self@.installed,
    {
        &self.installed
    }
}

} // verus!
