use vstd::prelude::*;
use crate::package::IdentView;

verus! {

/// Drops identifiers from the top (the end) of `pending` while they are
/// already installed. Returns what is left below the first one that is not,
/// and that identifier; or an empty stack and `None` when every pending
/// identifier is installed.
pub open spec fn select(installed: Seq<IdentView>, pending: Seq<IdentView>) -> (Seq<IdentView>, Option<IdentView>)
    decreases pending.len(),
{
    if pending.len() == 0 {
        (pending, None)
    } else if installed.contains(pending.last()) {
        select(installed, pending.drop_last())
    } else {
        (pending.drop_last(), Some(pending.last()))
    }
}

/// The stack after an archive's dependencies are pushed: the first dependency
/// ends on top, so it is handled next.
pub open spec fn push_deps(pending: Seq<IdentView>, deps: Seq<IdentView>) -> Seq<IdentView> {
    pending + deps.reverse()
}

/// The stack at the start of a run: the target at the bottom, the advertised
/// dependencies above it, the first on top.
pub open spec fn initial_pending(target: IdentView, deps: Seq<IdentView>) -> Seq<IdentView> {
    push_deps(seq![target], deps)
}


/// A package source that behaves as the installer assumes: fetching `x`
/// succeeds exactly when `x` is in the domain, and yields an archive whose own
/// identifier is `x` and whose own dependency list is `src[x]`.
pub type Source = Map<IdentView, Seq<IdentView>>;

/// What a whole run comes to: the identifiers fetched and unpacked, in order,
/// and the identifier whose fetch failed, if one did.
pub struct Outcome {
    pub installed: Seq<IdentView>,
    pub failed: Option<IdentView>,
}

/// The identifiers of the source that are not installed yet.
pub open spec fn unseen(src: Source, installed: Seq<IdentView>) -> Set<IdentView> {
    src.dom().difference(installed.to_set())
}

/// A run against `src` from the given state: repeatedly take the next
/// target (`select`), stop when there is none, fail when its fetch fails,
/// and otherwise record it and push its archive's dependencies.
pub open spec fn run(src: Source, installed: Seq<IdentView>, pending: Seq<IdentView>) -> Outcome
    decreases unseen(src, installed).len(),
    when src.dom().finite()
    via run_decreases
{
    match select(installed, pending).1 {
        None => Outcome { installed, failed: None },
        Some(x) => if src.dom().contains(x) {
            run(src, installed.push(x), push_deps(select(installed, pending).0, src[x]))
        } else {
            Outcome { installed, failed: Some(x) }
        },
    }
}

#[via_fn]
proof fn run_decreases(src: Source, installed: Seq<IdentView>, pending: Seq<IdentView>) {
    lemma_select(installed, pending);
    if let Some(x) = select(installed, pending).1 {
        if src.dom().contains(x) {
            lemma_unseen_shrinks(src, installed, x);
        }
    }
}

proof fn lemma_unseen_shrinks(src: Source, installed: Seq<IdentView>, x: IdentView)
    requires
        src.dom().finite(),
        src.dom().contains(x),
        !installed.contains(x),
    ensures
        unseen(src, installed.push(x)).len() < unseen(src, installed).len(),
{
    broadcast use vstd::seq_lib::lemma_seq_contains_after_push;
    let u = unseen(src, installed);
    assert(unseen(src, installed.push(x)) =~= u.remove(x));
    assert(u.contains(x));
    assert(u.finite());
}

/// The run that `Installer::new(target, deps)` starts.
pub open spec fn install_run(src: Source, target: IdentView, deps: Seq<IdentView>) -> Outcome {
    run(src, Seq::empty(), initial_pending(target, deps))
}

/// `p` is a walk through the source that starts at one of `roots` and goes
/// from each identifier to one of its archive's dependencies.
pub open spec fn is_path(src: Source, roots: Seq<IdentView>, p: Seq<IdentView>) -> bool {
    &&& p.len() > 0
    &&& roots.contains(p[0])
    &&& forall|i: int| 0 <= i < p.len() - 1 ==> src.dom().contains(#[trigger] p[i]) && src[p[i]].contains(p[i + 1])
}

/// `x` is in the dependency closure of `roots`.
pub open spec fn reachable(src: Source, roots: Seq<IdentView>, x: IdentView) -> bool {
    exists|p: Seq<IdentView>| is_path(src, roots, p) && p.last() == x
}

/// The identifiers a run for `target` starts from: the target and the
/// dependencies that its metadata advertises.
pub open spec fn start_roots(target: IdentView, deps: Seq<IdentView>) -> Seq<IdentView> {
    seq![target] + deps
}

proof fn lemma_select(installed: Seq<IdentView>, pending: Seq<IdentView>)
    ensures
        ({
            let (rest, next) = select(installed, pending);
            &&& forall|y: IdentView| rest.contains(y) ==> pending.contains(y)
            &&& forall|y: IdentView| pending.contains(y) ==>
                rest.contains(y) || next == Some(y) || installed.contains(y)
            &&& next is None ==> rest.len() == 0
            &&& forall|x: IdentView| next == Some(x) ==> !installed.contains(x) && pending.contains(x)
        }),
    decreases pending.len(),
{
    if pending.len() > 0 {
        let d = pending.drop_last();
        assert(pending =~= d.push(pending.last()));
        if installed.contains(pending.last()) {
            lemma_select(installed, d);
        }
        assert forall|y: IdentView| pending.contains(y) implies d.contains(y) || y == pending.last() by {
            let i = choose|i: int| 0 <= i < pending.len() && pending[i] == y;
            if i < pending.len() - 1 {
                assert(d[i] == y);
            }
        }
        assert forall|y: IdentView| d.contains(y) implies pending.contains(y) by {
            let i = choose|i: int| 0 <= i < d.len() && d[i] == y;
            assert(pending[i] == y);
        }
    }
}

proof fn lemma_concat_contains(a: Seq<IdentView>, b: Seq<IdentView>)
    ensures
        forall|y: IdentView| (a + b).contains(y) <==> a.contains(y) || b.contains(y),
{
    assert forall|y: IdentView| (a + b).contains(y) implies a.contains(y) || b.contains(y) by {
        let k = choose|k: int| 0 <= k < (a + b).len() && (a + b)[k] == y;
        if k < a.len() {
            assert(a[k] == y);
        } else {
            assert(b[k - a.len()] == y);
        }
    }
    assert forall|y: IdentView| a.contains(y) || b.contains(y) implies (a + b).contains(y) by {
        if a.contains(y) {
            let k = choose|k: int| 0 <= k < a.len() && a[k] == y;
            assert((a + b)[k] == y);
        } else {
            let k = choose|k: int| 0 <= k < b.len() && b[k] == y;
            assert((a + b)[a.len() + k] == y);
        }
    }
}

proof fn lemma_reverse_contains(s: Seq<IdentView>)
    ensures
        forall|y: IdentView| s.reverse().contains(y) <==> s.contains(y),
{
    assert forall|y: IdentView| s.reverse().contains(y) implies s.contains(y) by {
        let k = choose|k: int| 0 <= k < s.reverse().len() && s.reverse()[k] == y;
        assert(s[s.len() - 1 - k] == y);
    }
    assert forall|y: IdentView| s.contains(y) implies s.reverse().contains(y) by {
        let k = choose|k: int| 0 <= k < s.len() && s[k] == y;
        assert(s.reverse()[s.len() - 1 - k] == y);
    }
}

proof fn lemma_push_deps_contains(pending: Seq<IdentView>, deps: Seq<IdentView>)
    ensures
        forall|y: IdentView| push_deps(pending, deps).contains(y) <==> pending.contains(y) || deps.contains(y),
{
    lemma_concat_contains(pending, deps.reverse());
    lemma_reverse_contains(deps);
}

proof fn lemma_extend_path(src: Source, roots: Seq<IdentView>, x: IdentView, d: IdentView)
    requires
        reachable(src, roots, x),
        src.dom().contains(x),
        src[x].contains(d),
    ensures
        reachable(src, roots, d),
{
    let p = choose|p: Seq<IdentView>| is_path(src, roots, p) && p.last() == x;
    let q = p.push(d);
    assert forall|i: int| 0 <= i < q.len() - 1 implies src.dom().contains(#[trigger] q[i]) && src[q[i]].contains(q[i + 1]) by {
        if i < p.len() - 1 {
            assert(q[i] == p[i] && q[i + 1] == p[i + 1]);
        }
    }
    assert(is_path(src, roots, q) && q.last() == d);
}

proof fn lemma_closed_holds_reachable(src: Source, roots: Seq<IdentView>, s: Seq<IdentView>, p: Seq<IdentView>, i: int)
    requires
        is_path(src, roots, p),
        0 <= i < p.len(),
        forall|z: IdentView| roots.contains(z) ==> s.contains(z),
        forall|y: IdentView, d: IdentView| #![trigger s.contains(y), src[y].contains(d)]
            s.contains(y) && src[y].contains(d) ==> s.contains(d),
    ensures
        s.contains(p[i]),
    decreases i,
{
    if i > 0 {
        lemma_closed_holds_reachable(src, roots, s, p, i - 1);
        assert(src.dom().contains(p[i - 1]));
    }
}

/// The facts that hold at every step of a run.
spec fn run_inv(src: Source, roots: Seq<IdentView>, installed: Seq<IdentView>, pending: Seq<IdentView>) -> bool {
    &&& installed.no_duplicates()
    &&& forall|y: IdentView| installed.contains(y) ==> src.dom().contains(y) && reachable(src, roots, y)
    &&& forall|y: IdentView| pending.contains(y) ==> reachable(src, roots, y)
    &&& forall|y: IdentView, d: IdentView| #![trigger installed.contains(y), src[y].contains(d)]
        installed.contains(y) && src[y].contains(d) ==> installed.contains(d) || pending.contains(d)
    &&& forall|z: IdentView| roots.contains(z) ==> installed.contains(z) || pending.contains(z)
}

proof fn lemma_run(src: Source, roots: Seq<IdentView>, installed: Seq<IdentView>, pending: Seq<IdentView>)
    requires
        src.dom().finite(),
        run_inv(src, roots, installed, pending),
    ensures
        ({
            let o = run(src, installed, pending);
            &&& installed.len() <= o.installed.len()
            &&& o.installed.subrange(0, installed.len() as int) == installed
            &&& o.installed.no_duplicates()
            &&& forall|y: IdentView| o.installed.contains(y) ==> src.dom().contains(y) && reachable(src, roots, y)
            &&& forall|f: IdentView| o.failed == Some(f) ==> reachable(src, roots, f) && !src.dom().contains(f)
            &&& o.failed is None ==> forall|y: IdentView| reachable(src, roots, y) ==> o.installed.contains(y)
        }),
    decreases unseen(src, installed).len(),
{
    lemma_select(installed, pending);
    let (rest, next) = select(installed, pending);
    let o = run(src, installed, pending);
    assert(installed.subrange(0, installed.len() as int) =~= installed);
    match next {
        None => {
            assert forall|y: IdentView| reachable(src, roots, y) implies installed.contains(y) by {
                let p = choose|p: Seq<IdentView>| is_path(src, roots, p) && p.last() == y;
                lemma_closed_holds_reachable(src, roots, installed, p, p.len() - 1);
            }
        },
        Some(x) => {
            if src.dom().contains(x) {
                lemma_unseen_shrinks(src, installed, x);
                let i2 = installed.push(x);
                let p2 = push_deps(rest, src[x]);
                lemma_push_deps_contains(rest, src[x]);
                assert forall|y: IdentView| i2.contains(y) <==> installed.contains(y) || y == x by {
                    if i2.contains(y) && y != x {
                        let k = choose|k: int| 0 <= k < i2.len() && i2[k] == y;
                        assert(installed[k] == y);
                    }
                    if y == x {
                        assert(i2[installed.len() as int] == x);
                    }
                    if installed.contains(y) {
                        let k = choose|k: int| 0 <= k < installed.len() && installed[k] == y;
                        assert(i2[k] == y);
                    }
                }
                assert forall|d: IdentView| src[x].contains(d) implies reachable(src, roots, d) by {
                    lemma_extend_path(src, roots, x, d);
                }
                assert forall|y: IdentView, d: IdentView| #![trigger i2.contains(y), src[y].contains(d)]
                    i2.contains(y) && src[y].contains(d) implies i2.contains(d) || p2.contains(d) by {
                    if y != x {
                        assert(installed.contains(y));
                    }
                }
                assert(i2.no_duplicates()) by {
                    assert forall|a: int, b: int| 0 <= a < i2.len() && 0 <= b < i2.len() && a != b implies i2[a] != i2[b] by {
                        if a == installed.len() {
                            assert(installed[b] == i2[b]);
                        } else if b == installed.len() {
                            assert(installed[a] == i2[a]);
                        } else {
                            assert(installed[a] == i2[a] && installed[b] == i2[b]);
                        }
                    }
                }
                assert(run_inv(src, roots, i2, p2));
                lemma_run(src, roots, i2, p2);
                assert(o == run(src, i2, p2));
                assert(o.installed.subrange(0, installed.len() as int) =~= o.installed.subrange(0, i2.len() as int).subrange(0, installed.len() as int));
                assert(i2.subrange(0, installed.len() as int) =~= installed);
            }
        },
    }
}

proof fn lemma_start(src: Source, target: IdentView, deps: Seq<IdentView>)
    ensures
        run_inv(src, start_roots(target, deps), Seq::empty(), initial_pending(target, deps)),
{
    let roots = start_roots(target, deps);
    lemma_push_deps_contains(seq![target], deps);
    lemma_concat_contains(seq![target], deps);
    let pending = initial_pending(target, deps);
    assert(pending == push_deps(seq![target], deps));
    assert(roots == seq![target] + deps);
    assert forall|y: IdentView| roots.contains(y) <==> pending.contains(y) by {
        assert((seq![target] + deps).contains(y) <==> seq![target].contains(y) || deps.contains(y));
        assert(push_deps(seq![target], deps).contains(y) <==> seq![target].contains(y) || deps.contains(y));
    }
    assert forall|y: IdentView| roots.contains(y) implies reachable(src, roots, y) by {
        assert(is_path(src, roots, seq![y]) && seq![y].last() == y);
    }
}

/// Against a source that serves every identifier reachable from the target
/// or from the dependencies its metadata advertises, a run succeeds and
/// fetches and unpacks each of those identifiers exactly once, and no other.
/// Shared dependencies and cycles in the graph make no difference.
pub proof fn lemma_installs_closure_exactly_once(src: Source, target: IdentView, deps: Seq<IdentView>)
    requires
        src.dom().finite(),
        forall|y: IdentView| reachable(src, start_roots(target, deps), y) ==> src.dom().contains(y),
    ensures
        install_run(src, target, deps).failed is None,
        install_run(src, target, deps).installed.no_duplicates(),
        forall|y: IdentView| install_run(src, target, deps).installed.contains(y)
            <==> reachable(src, start_roots(target, deps), y),
{
    lemma_start(src, target, deps);
    lemma_run(src, start_roots(target, deps), Seq::empty(), initial_pending(target, deps));
    if let Some(f) = install_run(src, target, deps).failed {
        assert(reachable(src, start_roots(target, deps), f));
    }
}

/// A run fails exactly when some identifier reachable from the target or its
/// advertised dependencies cannot be fetched. It then stops at such an
/// identifier, and everything it installed before was fetched and unpacked
/// once each and stays installed.
pub proof fn lemma_fetch_failure_aborts(src: Source, target: IdentView, deps: Seq<IdentView>)
    requires
        src.dom().finite(),
    ensures
        install_run(src, target, deps).failed is Some
            <==> exists|y: IdentView| reachable(src, start_roots(target, deps), y) && !src.dom().contains(y),
        forall|f: IdentView| install_run(src, target, deps).failed == Some(f)
            ==> reachable(src, start_roots(target, deps), f) && !src.dom().contains(f),
        install_run(src, target, deps).installed.no_duplicates(),
        forall|y: IdentView| install_run(src, target, deps).installed.contains(y)
            ==> src.dom().contains(y) && reachable(src, start_roots(target, deps), y),
{
    lemma_start(src, target, deps);
    lemma_run(src, start_roots(target, deps), Seq::empty(), initial_pending(target, deps));
    let o = install_run(src, target, deps);
    if let Some(f) = o.failed {
        assert(reachable(src, start_roots(target, deps), f) && !src.dom().contains(f));
    } else {
        assert forall|y: IdentView| reachable(src, start_roots(target, deps), y) implies src.dom().contains(y) by {
            assert(o.installed.contains(y));
        }
    }
}

/// Identifiers are never removed: whatever happens later in a run,
/// including a failed fetch, the identifiers installed so far stay first in
/// its result.
pub proof fn lemma_run_only_appends(src: Source, installed: Seq<IdentView>, pending: Seq<IdentView>)
    requires
        src.dom().finite(),
    ensures
        installed.len() <= run(src, installed, pending).installed.len(),
        run(src, installed, pending).installed.subrange(0, installed.len() as int) == installed,
    decreases unseen(src, installed).len(),
{
    lemma_select(installed, pending);
    let (rest, next) = select(installed, pending);
    let o = run(src, installed, pending);
    assert(installed.subrange(0, installed.len() as int) =~= installed);
    if let Some(x) = next {
        if src.dom().contains(x) {
            let i2 = installed.push(x);
            lemma_unseen_shrinks(src, installed, x);
            lemma_run_only_appends(src, i2, push_deps(rest, src[x]));
            assert(o.installed.subrange(0, installed.len() as int) =~= o.installed.subrange(0, i2.len() as int).subrange(0, installed.len() as int));
            assert(i2.subrange(0, installed.len() as int) =~= installed);
        }
    }
}

/// The installed identifiers do not outlive a run: after a run that
/// succeeded, a new run fetches and unpacks every identifier of the closure
/// again, in the same order, and succeeds again.
pub proof fn lemma_rerun_refetches_all(src: Source, target: IdentView, deps: Seq<IdentView>)
    requires
        src.dom().finite(),
        install_run(src, target, deps).failed is None,
    ensures
        ({
            let again = install_run(src, target, deps);
            &&& again.failed is None
            &&& again.installed == install_run(src, target, deps).installed
            &&& forall|y: IdentView| reachable(src, start_roots(target, deps), y) ==> again.installed.contains(y)
        }),
{
    lemma_start(src, target, deps);
    lemma_run(src, start_roots(target, deps), Seq::empty(), initial_pending(target, deps));
}

} // verus!
