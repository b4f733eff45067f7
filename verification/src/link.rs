//! Host linking and the per-event store context.
//!
//! A capability host declares the functions it exports; the runtime
//! assembler links every configured host into one shared linker, in
//! declared order, and builds a fresh store context — one capability
//! context per configured host plus one resource table — for every
//! inbound event.

use vstd::prelude::*;
use crate::bytestr::{eq_bytes, lit_bytes, str_to_bytes, views};
use crate::errors::StartError;

verus! {

/// What a capability host contributes to the linker: its name and the
/// functions its link step declares.
#[derive(Debug, Clone)]
pub struct HostSpec {
    pub name: Vec<u8>,
    pub functions: Vec<Vec<u8>>,
}

/// No two elements equal.
pub open spec fn distinct_seq<A>(s: Seq<A>) -> bool {
    forall|i: int, j: int| 0 <= i < j < s.len() ==> s[i] != s[j]
}

/// Every function of every host, in declared order.
pub open spec fn flat_funcs(hosts: Seq<HostSpec>) -> Seq<Seq<u8>>
    decreases hosts.len(),
{
    if hosts.len() == 0 {
        Seq::empty()
    } else {
        views(hosts.first().functions@) + flat_funcs(hosts.drop_first())
    }
}

/// One more host appends exactly its functions.
pub proof fn lemma_flat_take_append(hosts: Seq<HostSpec>, i: int)
    requires
        0 <= i < hosts.len(),
    ensures
        flat_funcs(hosts.take(i + 1)) == flat_funcs(hosts.take(i)) + views(
            hosts[i].functions@,
        ),
    decreases i,
{
    if i == 0 {
        assert(hosts.take(1).drop_first() =~= Seq::<HostSpec>::empty());
        assert(hosts.take(0) =~= Seq::<HostSpec>::empty());
        assert(flat_funcs(hosts.take(1)) =~= flat_funcs(hosts.take(0)) + views(
            hosts[0].functions@,
        ));
    } else {
        let rest = hosts.drop_first();
        lemma_flat_take_append(rest, i - 1);
        assert(hosts.take(i + 1).drop_first() =~= rest.take(i));
        assert(hosts.take(i).drop_first() =~= rest.take(i - 1));
        assert(hosts.take(i + 1).first() == hosts[0]);
        assert(hosts.take(i).first() == hosts[0]);
        assert(rest[i - 1] == hosts[i]);
        assert(flat_funcs(hosts.take(i + 1)) == views(hosts[0].functions@) + flat_funcs(
            rest.take(i),
        ));
        assert(flat_funcs(hosts.take(i)) == views(hosts[0].functions@) + flat_funcs(
            rest.take(i - 1),
        ));
        assert(flat_funcs(hosts.take(i + 1)) =~= flat_funcs(hosts.take(i)) + views(
            hosts[i].functions@,
        ));
    }
}

/// A host links cleanly into a linker holding `existing`: its declared
/// functions are themselves distinct and none is already bound.
pub open spec fn links_cleanly(existing: Seq<Seq<u8>>, fns: Seq<Seq<u8>>) -> bool {
    distinct_seq(fns) && forall|i: int| 0 <= i < fns.len() ==> !existing.contains(#[trigger] fns[i])
}

/// The shared linker, modeled by the functions bound so far.
#[derive(Debug)]
pub struct Linker {
    pub funcs: Vec<Vec<u8>>,
}

impl Linker {
    /// The bound function names, in binding order.
    pub open spec fn contents(&self) -> Seq<Seq<u8>> {
        views(self.funcs@)
    }

    /// A linker never binds one function twice.
    pub open spec fn wf(&self) -> bool {
        distinct_seq(self.contents())
    }

    /// A fresh, empty linker.
    pub fn new() -> (r: Linker)
        ensures
            r.contents() == Seq::<Seq<u8>>::empty(),
            r.wf(),
    {
        let r = Linker { funcs: Vec::new() };
        proof {
            assert(r.contents() =~= Seq::<Seq<u8>>::empty());
        }
        r
    }

    /// Is this function already bound?
    pub fn contains_func(&self, name: &[u8]) -> (r: bool)
        ensures
            r == self.contents().contains(name@),
    {
        let n = self.funcs.len();
        let r = vec_contains_upto(&self.funcs, n, name);
        proof {
            assert(views(self.funcs@).take(n as int) =~= self.contents());
        }
        r
    }

    /// Link one host: bind exactly its declared functions, after the
    /// ones already bound.  Linking fails deterministically — naming
    /// the capability and leaving the linker unchanged — if any of the
    /// host's functions is already bound (so linking a host twice
    /// always fails the second time) or declared twice.
    pub fn link(&mut self, host: &HostSpec) -> (r: Result<(), StartError>)
        requires
            old(self).wf(),
        ensures
            final(self).wf(),
            r is Ok <==> links_cleanly(old(self).contents(), views(host.functions@)),
            r is Ok ==> final(self).contents() == old(self).contents() + views(host.functions@),
            r matches Err(e) ==> *final(self) == *old(self) && (e matches StartError::LinkError(n)
                && n@ == host.name@),
    {
        let ghost existing = self.contents();
        let ghost fns = views(host.functions@);
        let mut k: usize = 0;
        while k < host.functions.len()
            invariant
                *self == *old(self),
                old(self).wf(),
                existing == self.contents(),
                fns == views(host.functions@),
                k <= host.functions@.len(),
                links_cleanly(existing, fns.take(k as int)),
            decreases host.functions@.len() - k,
        {
            let f = &host.functions[k];
            let n = self.funcs.len();
            if vec_contains_upto(&self.funcs, n, f.as_slice()) {
                proof {
                    assert(views(self.funcs@).take(n as int) =~= existing);
                    assert(fns[k as int] == f@);
                    assert(!links_cleanly(existing, fns));
                }
                return Err(StartError::LinkError(host.name.clone()));
            }
            if vec_contains_upto(&host.functions, k, f.as_slice()) {
                proof {
                    let j = choose|j: int|
                        0 <= j < k && #[trigger] fns.take(k as int)[j] == f@;
                    assert(fns[j] == fns[k as int]);
                    assert(!distinct_seq(fns));
                }
                return Err(StartError::LinkError(host.name.clone()));
            }
            proof {
                assert(views(self.funcs@).take(n as int) =~= existing);
                assert(!existing.contains(f@));
                assert(!fns.take(k as int).contains(f@));
                assert forall|i: int, j: int|
                    0 <= i < j < k + 1 implies #[trigger] fns.take(k + 1)[i] != #[trigger] fns.take(
                    k + 1,
                )[j] by {
                    assert(fns.take(k + 1)[i] == fns[i]);
                    assert(fns.take(k + 1)[j] == fns[j]);
                    if j < k {
                        assert(fns.take(k as int)[i] != fns.take(k as int)[j]);
                        assert(fns.take(k as int)[i] == fns[i]);
                        assert(fns.take(k as int)[j] == fns[j]);
                    } else {
                        if fns[i] == fns[k as int] {
                            assert(fns.take(k as int)[i] == fns[k as int]);
                            assert(fns.take(k as int).contains(f@));
                            assert(false);
                        }
                    }
                }
                assert forall|i: int| 0 <= i < k + 1 implies !existing.contains(
                    #[trigger] fns.take(k + 1)[i],
                ) by {
                    assert(fns.take(k + 1)[i] == fns[i]);
                    if i < k {
                        assert(!existing.contains(fns.take(k as int)[i]));
                        assert(fns.take(k as int)[i] == fns[i]);
                    }
                }
            }
            k = k + 1;
        }
        proof {
            assert(fns.take(fns.len() as int) =~= fns);
            assert(fns.take(0) =~= Seq::<Seq<u8>>::empty());
            assert(self.contents() =~= existing + fns.take(0));
        }
        let mut k: usize = 0;
        while k < host.functions.len()
            invariant
                existing == old(self).contents(),
                fns == views(host.functions@),
                k <= host.functions@.len(),
                self.contents() == existing + fns.take(k as int),
                links_cleanly(existing, fns),
                distinct_seq(existing),
            decreases host.functions@.len() - k,
        {
            let f2 = crate::bytestr::slice_to_vec_u8(host.functions[k].as_slice());
            let ghost pre = views(self.funcs@);
            self.funcs.push(f2);
            proof {
                assert(views(self.funcs@) =~= pre.push(fns[k as int]));
                assert(existing + fns.take(k + 1) =~= pre.push(fns[k as int]));
            }
            k = k + 1;
        }
        proof {
            assert(fns.take(fns.len() as int) =~= fns);
            assert(self.contents() == existing + fns);
            let t = self.contents();
            let n = existing.len() as int;
            assert forall|i: int, j: int| 0 <= i < j < t.len() implies #[trigger] t[i]
                != #[trigger] t[j] by {
                if j < n {
                    assert(t[i] == existing[i] && t[j] == existing[j]);
                } else if i >= n {
                    assert(t[i] == fns[i - n] && t[j] == fns[j - n]);
                } else {
                    assert(t[i] == existing[i] && t[j] == fns[j - n]);
                    assert(!existing.contains(fns[j - n]));
                    if existing[i] == fns[j - n] {
                        assert(existing.contains(fns[j - n]));
                        assert(false);
                    }
                }
            }
        }
        Ok(())
    }
}

/// Linear search among the first `upto` entries.
fn vec_contains_upto(v: &Vec<Vec<u8>>, upto: usize, x: &[u8]) -> (r: bool)
    requires
        upto <= v@.len(),
    ensures
        r == views(v@).take(upto as int).contains(x@),
{
    let mut i: usize = 0;
    while i < upto
        invariant
            upto <= v@.len(),
            i <= upto,
            forall|j: int| 0 <= j < i ==> views(v@)[j] != x@,
        decreases upto - i,
    {
        if eq_bytes(v[i].as_slice(), x) {
            proof {
                assert(views(v@).take(upto as int)[i as int] == x@);
            }
            return true;
        }
        i = i + 1;
    }
    proof {
        assert(forall|j: int| 0 <= j < upto ==> views(v@).take(upto as int)[j] == views(v@)[j]);
    }
    false
}

/// Build the linker for a configuration: link every host in declared
/// order, stopping at the first host that does not link cleanly.  The
/// build succeeds exactly when no function name is declared twice
/// across (or within) the configured hosts, and the linker then binds
/// exactly the hosts' functions, in declared order.
pub fn build_linker(hosts: &Vec<HostSpec>) -> (r: Result<Linker, StartError>)
    ensures
        r is Ok <==> distinct_seq(flat_funcs(hosts@)),
        r matches Ok(l) ==> l.contents() == flat_funcs(hosts@) && l.wf(),
        r matches Err(e) ==> (e matches StartError::LinkError(n) && exists|i: int|
            0 <= i < hosts@.len() && n@ == (#[trigger] hosts@[i]).name@),
{
    let mut linker = Linker::new();
    let mut i: usize = 0;
    proof {
        assert(hosts@.take(0) =~= Seq::<HostSpec>::empty());
        assert(flat_funcs(hosts@.take(0)) =~= Seq::<Seq<u8>>::empty());
        assert(linker.contents() =~= flat_funcs(hosts@.take(0)));
    }
    while i < hosts.len()
        invariant
            i <= hosts@.len(),
            linker.wf(),
            linker.contents() == flat_funcs(hosts@.take(i as int)),
            forall|j: int|
                0 <= j < i ==> links_cleanly(
                    flat_funcs(hosts@.take(j)),
                    views((#[trigger] hosts@[j]).functions@),
                ),
        decreases hosts@.len() - i,
    {
        let host = &hosts[i];
        let ghost before = linker.contents();
        let res = linker.link(host);
        proof {
            lemma_flat_take_append(hosts@, i as int);
        }
        match res {
            Ok(()) => {
                proof {
                    assert(linker.contents() =~= flat_funcs(hosts@.take(i + 1)));
                }
            },
            Err(e) => {
                proof {
                    lemma_unclean_prefix_not_distinct(hosts@, i as int);
                }
                return Err(e);
            },
        }
        i = i + 1;
    }
    proof {
        assert(hosts@.take(hosts@.len() as int) =~= hosts@);
        lemma_flat_distinct(hosts@);
    }
    Ok(linker)
}

/// The linker contents after the first `i` hosts, when a host that
/// does not link cleanly is skipped rather than stopping the build.
pub open spec fn fold_contents(hosts: Seq<HostSpec>, i: int) -> Seq<Seq<u8>>
    decreases i,
{
    if i <= 0 {
        Seq::empty()
    } else {
        let prev = fold_contents(hosts, i - 1);
        if links_cleanly(prev, views(hosts[i - 1].functions@)) {
            prev + views(hosts[i - 1].functions@)
        } else {
            prev
        }
    }
}

/// The names of the hosts among the first `i` that failed to link,
/// in declared order.
pub open spec fn fold_failures(hosts: Seq<HostSpec>, i: int) -> Seq<Seq<u8>>
    decreases i,
{
    if i <= 0 {
        Seq::empty()
    } else {
        let prev = fold_failures(hosts, i - 1);
        if links_cleanly(fold_contents(hosts, i - 1), views(hosts[i - 1].functions@)) {
            prev
        } else {
            prev.push(hosts[i - 1].name@)
        }
    }
}

/// Build the linker while collecting every link failure: each host is
/// linked in declared order; one that does not link cleanly is
/// reported — naming the capability — and skipped, and the build goes
/// on.  No failure is reported exactly when the configuration's
/// function list is distinct, and the linker then binds exactly that
/// list.
pub fn build_linker_report(hosts: &Vec<HostSpec>) -> (r: (Linker, Vec<StartError>))
    ensures
        r.0.wf(),
        r.0.contents() == fold_contents(hosts@, hosts@.len() as int),
        r.1@.len() == fold_failures(hosts@, hosts@.len() as int).len(),
        forall|k: int|
            0 <= k < r.1@.len() ==> ((#[trigger] r.1@[k]) matches StartError::LinkError(n) && n@
                == fold_failures(hosts@, hosts@.len() as int)[k]),
        r.1@.len() == 0 <==> distinct_seq(flat_funcs(hosts@)),
{
    let mut linker = Linker::new();
    let mut errors: Vec<StartError> = Vec::new();
    let mut i: usize = 0;
    proof {
        assert(linker.contents() =~= fold_contents(hosts@, 0));
    }
    while i < hosts.len()
        invariant
            i <= hosts@.len(),
            linker.wf(),
            linker.contents() == fold_contents(hosts@, i as int),
            errors@.len() == fold_failures(hosts@, i as int).len(),
            forall|k: int|
                0 <= k < errors@.len() ==> ((#[trigger] errors@[k]) matches StartError::LinkError(
                n) && n@ == fold_failures(hosts@, i as int)[k]),
            errors@.len() == 0 ==> linker.contents() == flat_funcs(hosts@.take(i as int)) && (
            forall|j: int|
                0 <= j < i ==> links_cleanly(
                    flat_funcs(hosts@.take(j)),
                    views((#[trigger] hosts@[j]).functions@),
                )),
            errors@.len() > 0 ==> !distinct_seq(flat_funcs(hosts@)),
        decreases hosts@.len() - i,
    {
        let host = &hosts[i];
        let ghost before = linker.contents();
        let ghost errs_before = errors@;
        let res = linker.link(host);
        match res {
            Ok(()) => {
                proof {
                    assert(fold_contents(hosts@, i + 1) == before + views(host.functions@));
                    assert(fold_failures(hosts@, i + 1) == fold_failures(hosts@, i as int));
                    if errs_before.len() == 0 {
                        lemma_flat_take_append(hosts@, i as int);
                        assert(linker.contents() =~= flat_funcs(hosts@.take(i + 1)));
                    }
                }
            },
            Err(e) => {
                errors.push(e);
                proof {
                    assert(fold_contents(hosts@, i + 1) == before);
                    assert(fold_failures(hosts@, i + 1) == fold_failures(
                        hosts@,
                        i as int,
                    ).push(host.name@));
                    if errs_before.len() == 0 {
                        lemma_unclean_prefix_not_distinct(hosts@, i as int);
                    }
                }
            },
        }
        i = i + 1;
    }
    proof {
        if errors@.len() == 0 {
            assert(hosts@.take(hosts@.len() as int) =~= hosts@);
            lemma_flat_distinct(hosts@);
        }
    }
    (linker, errors)
}

/// If some host's functions collide with an earlier host's (or repeat
/// within the host), the whole configuration's function list is not
/// distinct.
proof fn lemma_unclean_prefix_not_distinct(hosts: Seq<HostSpec>, i: int)
    requires
        0 <= i < hosts.len(),
        !links_cleanly(flat_funcs(hosts.take(i)), views(hosts[i].functions@)),
    ensures
        !distinct_seq(flat_funcs(hosts)),
{
    let prefix = flat_funcs(hosts.take(i));
    let fns = views(hosts[i].functions@);
    lemma_flat_take_append(hosts, i);
    let upto = flat_funcs(hosts.take(i + 1));
    assert(upto == prefix + fns);
    lemma_flat_prefix(hosts, i + 1);
    if !distinct_seq(fns) {
        let (a, b) = choose|a: int, b: int| 0 <= a < b < fns.len() && fns[a] == fns[b];
        assert(upto[prefix.len() + a] == fns[a]);
        assert(upto[prefix.len() + b] == fns[b]);
        assert(flat_funcs(hosts)[prefix.len() + a] == flat_funcs(hosts.take(i + 1))[prefix.len()
            + a]);
        assert(flat_funcs(hosts)[prefix.len() + b] == flat_funcs(hosts.take(i + 1))[prefix.len()
            + b]);
        assert(!distinct_seq(flat_funcs(hosts)));
    } else {
        let a = choose|a: int| 0 <= a < fns.len() && prefix.contains(#[trigger] fns[a]);
        let p = choose|p: int| 0 <= p < prefix.len() && prefix[p] == fns[a];
        assert(upto[p] == prefix[p]);
        assert(upto[prefix.len() + a] == fns[a]);
        assert(flat_funcs(hosts)[p] == flat_funcs(hosts.take(i + 1))[p]);
        assert(flat_funcs(hosts)[prefix.len() + a] == flat_funcs(hosts.take(i + 1))[prefix.len()
            + a]);
        assert(!distinct_seq(flat_funcs(hosts)));
    }
}

/// The first hosts' functions are a prefix of the whole list's.
proof fn lemma_flat_prefix(hosts: Seq<HostSpec>, i: int)
    requires
        0 <= i <= hosts.len(),
    ensures
        flat_funcs(hosts.take(i)).len() <= flat_funcs(hosts).len(),
        forall|k: int|
            0 <= k < flat_funcs(hosts.take(i)).len() ==> flat_funcs(hosts)[k] == #[trigger]
            flat_funcs(hosts.take(i))[k],
    decreases hosts.len() - i,
{
    if i < hosts.len() {
        lemma_flat_take_append(hosts, i);
        lemma_flat_prefix(hosts, i + 1);
        assert forall|k: int| 0 <= k < flat_funcs(hosts.take(i)).len() implies flat_funcs(
            hosts,
        )[k] == #[trigger] flat_funcs(hosts.take(i))[k] by {
            assert(flat_funcs(hosts.take(i + 1))[k] == flat_funcs(hosts.take(i))[k]);
            assert(flat_funcs(hosts)[k] == flat_funcs(hosts.take(i + 1))[k]);
        }
    } else {
        assert(hosts.take(i) =~= hosts);
    }
}

/// If every host linked cleanly in order, the whole function list is
/// distinct.
proof fn lemma_flat_distinct(hosts: Seq<HostSpec>)
    requires
        forall|i: int|
            0 <= i < hosts.len() ==> links_cleanly(
                flat_funcs(hosts.take(i)),
                views((#[trigger] hosts[i]).functions@),
            ),
    ensures
        distinct_seq(flat_funcs(hosts)),
    decreases hosts.len(),
{
    if hosts.len() > 0 {
        let n = hosts.len() as int;
        let prefix = hosts.take(n - 1);
        assert forall|i: int| 0 <= i < prefix.len() implies links_cleanly(
            flat_funcs(prefix.take(i)),
            views((#[trigger] prefix[i]).functions@),
        ) by {
            assert(prefix.take(i) =~= hosts.take(i));
            assert(prefix[i] == hosts[i]);
        }
        lemma_flat_distinct(prefix);
        lemma_flat_take_append(hosts, n - 1);
        assert(hosts.take(n) =~= hosts);
        let flat = flat_funcs(hosts);
        let base = flat_funcs(prefix);
        let fns = views(hosts[n - 1].functions@);
        assert(flat == base + fns);
        assert(links_cleanly(base, fns));
        assert forall|i: int, j: int| 0 <= i < j < flat.len() implies flat[i] != flat[j] by {
            if i < base.len() && j >= base.len() {
                assert(!base.contains(fns[j - base.len()]));
                assert(base[i] != fns[j - base.len()]);
            }
        }
    }
}

/// The linker built for a configuration binds a function if and only
/// if some configured host declares it: nothing missing, nothing
/// extra.
pub proof fn lemma_linker_exact(hosts: Seq<HostSpec>, l: Seq<Seq<u8>>)
    requires
        l == flat_funcs(hosts),
    ensures
        forall|f: Seq<u8>|
            #[trigger] l.contains(f) <==> exists|i: int|
                0 <= i < hosts.len() && views((#[trigger] hosts[i]).functions@).contains(f),
    decreases hosts.len(),
{
    assert forall|f: Seq<u8>| #[trigger] l.contains(f) implies exists|i: int|
        0 <= i < hosts.len() && views((#[trigger] hosts[i]).functions@).contains(f) by {
        lemma_flat_member_up(hosts, f);
    }
    assert forall|f: Seq<u8>|
        exists|i: int|
            0 <= i < hosts.len() && views((#[trigger] hosts[i]).functions@).contains(
                f,
            ) implies #[trigger] l.contains(f) by {
        let i = choose|i: int|
            0 <= i < hosts.len() && views((#[trigger] hosts[i]).functions@).contains(f);
        lemma_flat_member_down(hosts, i, f);
    }
}

proof fn lemma_flat_member_up(hosts: Seq<HostSpec>, f: Seq<u8>)
    requires
        flat_funcs(hosts).contains(f),
    ensures
        exists|i: int| 0 <= i < hosts.len() && views((#[trigger] hosts[i]).functions@).contains(f),
    decreases hosts.len(),
{
    let head = views(hosts.first().functions@);
    if head.contains(f) {
        assert(views(hosts[0].functions@).contains(f));
    } else {
        let k = choose|k: int| 0 <= k < flat_funcs(hosts).len() && flat_funcs(hosts)[k] == f;
        assert(flat_funcs(hosts.drop_first())[k - head.len()] == f);
        lemma_flat_member_up(hosts.drop_first(), f);
        let i = choose|i: int|
            0 <= i < hosts.drop_first().len() && views(
                (#[trigger] hosts.drop_first()[i]).functions@,
            ).contains(f);
        assert(views(hosts[i + 1].functions@).contains(f));
    }
}

proof fn lemma_flat_member_down(hosts: Seq<HostSpec>, i: int, f: Seq<u8>)
    requires
        0 <= i < hosts.len(),
        views(hosts[i].functions@).contains(f),
    ensures
        flat_funcs(hosts).contains(f),
    decreases hosts.len(),
{
    let head = views(hosts.first().functions@);
    if i == 0 {
        let k = choose|k: int| 0 <= k < head.len() && head[k] == f;
        assert(flat_funcs(hosts)[k] == f);
    } else {
        lemma_flat_member_down(hosts.drop_first(), i - 1, f);
        let k = choose|k: int|
            0 <= k < flat_funcs(hosts.drop_first()).len() && flat_funcs(hosts.drop_first())[k]
                == f;
        assert(flat_funcs(hosts)[head.len() + k] == f);
    }
}

/// Idempotence of link across fresh linkers: the bindings a host
/// contributes depend on the host's declaration and the linker's prior
/// contents alone, so linking the same host into two equal linkers —
/// in particular, two fresh ones — yields identical bindings.
pub proof fn lemma_link_idempotent(h: HostSpec, base: Seq<Seq<u8>>, l1: Seq<Seq<u8>>, l2: Seq<
    Seq<u8>,
>)
    requires
        l1 == base + views(h.functions@),
        l2 == base + views(h.functions@),
    ensures
        l1 == l2,
{
}

/// Linking a host with at least one function twice into the same
/// linker fails deterministically the second time: after the first
/// link every one of its functions is already bound.
pub proof fn lemma_relink_fails(h: HostSpec, base: Seq<Seq<u8>>, after: Seq<Seq<u8>>)
    requires
        after == base + views(h.functions@),
        views(h.functions@).len() > 0,
    ensures
        !links_cleanly(after, views(h.functions@)),
{
    let fns = views(h.functions@);
    assert(after[base.len() as int] == fns[0]);
    assert(after.contains(fns[0]));
}

/// One capability's per-event context.
#[derive(Debug, Clone)]
pub struct CapabilityCtx {
    pub capability: Vec<u8>,
}

/// The table of per-event resource handles, owned by one event's task.
#[derive(Debug, Clone)]
pub struct ResourceTable {
    pub handles: Vec<u64>,
}

/// The per-event store context: one capability context per configured
/// host, plus one resource table shared by all of them.
#[derive(Debug, Clone)]
pub struct StoreContext {
    pub contexts: Vec<CapabilityCtx>,
    pub table: ResourceTable,
}

/// Build a fresh store context for one inbound event: exactly one
/// context per configured host, in configuration order, and one empty
/// resource table.
pub fn make_store(config: &Vec<HostSpec>) -> (s: StoreContext)
    ensures
        s.contexts@.len() == config@.len(),
        forall|i: int|
            0 <= i < config@.len() ==> (#[trigger] s.contexts@[i]).capability@ == config@[i].name@,
        s.table.handles@.len() == 0,
{
    let mut contexts: Vec<CapabilityCtx> = Vec::new();
    let mut i: usize = 0;
    while i < config.len()
        invariant
            i <= config@.len(),
            contexts@.len() == i,
            forall|j: int|
                0 <= j < i ==> (#[trigger] contexts@[j]).capability@ == config@[j].name@,
        decreases config@.len() - i,
    {
        let name = crate::bytestr::slice_to_vec_u8(config[i].name.as_slice());
        contexts.push(CapabilityCtx { capability: name });
        i = i + 1;
    }
    StoreContext { contexts, table: ResourceTable { handles: Vec::new() } }
}

/// Under distinct host names, the store context holds exactly one
/// context per configured host: each host's name appears at its own
/// index and at no other.
pub proof fn lemma_store_one_context_per_host(s: StoreContext, config: Seq<HostSpec>)
    requires
        s.contexts.len() == config.len(),
        forall|i: int|
            0 <= i < config.len() ==> (#[trigger] s.contexts[i]).capability@ == config[i].name@,
        distinct_seq(config.map_values(|h: HostSpec| h.name@)),
    ensures
        forall|i: int, j: int|
            0 <= i < config.len() && 0 <= j < config.len() && (#[trigger] s.contexts[i]).capability@
                == (#[trigger] s.contexts[j]).capability@ ==> i == j,
{
    let names = config.map_values(|h: HostSpec| h.name@);
    assert forall|i: int, j: int|
        0 <= i < config.len() && 0 <= j < config.len() && (#[trigger] s.contexts[i]).capability@
            == (#[trigger] s.contexts[j]).capability@ implies i == j by {
        if i != j {
            assert(names[i] == config[i].name@);
            assert(names[j] == config[j].name@);
        }
    }
}

/// The process-wide state: the configuration and its pre-built linker,
/// shared by every dispatched event.  `store` builds the per-event
/// store context and never fails.
#[derive(Debug)]
pub struct RuntimeState {
    pub config: Vec<HostSpec>,
    pub linker: Linker,
}

impl RuntimeState {
    /// Connect the configuration into a ready state: build the linker
    /// over every configured host.
    pub fn build(config: Vec<HostSpec>) -> (r: Result<RuntimeState, StartError>)
        ensures
            r is Ok <==> distinct_seq(flat_funcs(config@)),
            r matches Ok(s) ==> s.linker.contents() == flat_funcs(config@) && s.linker.wf()
                && s.config@ == config@,
    {
        let linker = match build_linker(&config) {
            Ok(l) => l,
            Err(e) => {
                return Err(e);
            },
        };
        Ok(RuntimeState { config, linker })
    }

    /// A fresh store context for one event, with the per-request
    /// defaults: one context per configured host, one empty table.
    pub fn store(&self) -> (s: StoreContext)
        ensures
            s.contexts@.len() == self.config@.len(),
            forall|i: int|
                0 <= i < self.config@.len() ==> (#[trigger] s.contexts@[i]).capability@
                    == self.config@[i].name@,
            s.table.handles@.len() == 0,
    {
        make_store(&self.config)
    }
}

/// How one concurrently started task ended, as the embedder observed
/// it: a backend connect or a server run either finished cleanly, was
/// cancelled when a sibling exited, or failed.
#[derive(Debug, Clone, PartialEq)]
pub enum TaskExit {
    Clean,
    Cancelled,
    Failed(StartError),
}

/// The result the entry procedure surfaces from a group of
/// concurrently run tasks — backend connects, or the server hosts
/// once the first exit cancels the rest: the first non-cancel error
/// in task order, success if no task failed.
pub fn surface_outcome(outcomes: Vec<TaskExit>) -> (r: Result<(), StartError>)
    ensures
        r is Ok <==> (forall|i: int|
            0 <= i < outcomes@.len() ==> !((#[trigger] outcomes@[i]) is Failed)),
        r matches Err(e) ==> exists|k: int|
            0 <= k < outcomes@.len() && #[trigger] outcomes@[k] == TaskExit::Failed(e) && (
            forall|j: int| 0 <= j < k ==> !((#[trigger] outcomes@[j]) is Failed)),
{
    let ghost all = outcomes@;
    let mut outcomes = outcomes;
    let mut k: usize = 0;
    while k < outcomes.len() && !exit_failed(&outcomes[k])
        invariant
            outcomes@ == all,
            k <= all.len(),
            forall|j: int| 0 <= j < k ==> !((#[trigger] all[j]) is Failed),
        decreases all.len() - k,
    {
        k = k + 1;
    }
    if k < outcomes.len() {
        let hit = outcomes.remove(k);
        match hit {
            TaskExit::Failed(e) => Err(e),
            _ => {
                proof {
                    assert(false);
                }
                Ok(())
            },
        }
    } else {
        Ok(())
    }
}

fn exit_failed(e: &TaskExit) -> (r: bool)
    ensures
        r == (*e is Failed),
{
    match e {
        TaskExit::Failed(_) => true,
        _ => false,
    }
}

/// The host side of the configuration capability: its linker
/// declaration.
#[derive(Debug, Clone)]
pub struct WasiConfig;

/// The configuration capability is no server: it owns no run loop, so
/// starting it returns at once, by the default.
impl<S> crate::traits::Server<S> for WasiConfig {

}

impl WasiConfig {
    /// The functions the configuration capability exports.
    pub fn host_spec() -> (h: HostSpec)
        ensures
            h.name@ == lit_bytes("wasi-config"),
            views(h.functions@) == seq![
                lit_bytes("wasi-config.get"),
                lit_bytes("wasi-config.get-all"),
            ],
    {
        let mut functions: Vec<Vec<u8>> = Vec::new();
        functions.push(str_to_bytes("wasi-config.get"));
        functions.push(str_to_bytes("wasi-config.get-all"));
        let h = HostSpec { name: str_to_bytes("wasi-config"), functions };
        proof {
            assert(views(h.functions@) =~= seq![
                lit_bytes("wasi-config.get"),
                lit_bytes("wasi-config.get-all"),
            ]);
        }
        h
    }

    /// Link this capability's functions into the shared linker.
    pub fn add_to_linker(linker: &mut Linker) -> (r: Result<(), StartError>)
        requires
            old(linker).wf(),
        ensures
            final(linker).wf(),
            r is Ok <==> links_cleanly(
                old(linker).contents(),
                seq![lit_bytes("wasi-config.get"), lit_bytes("wasi-config.get-all")],
            ),
            r is Ok ==> final(linker).contents() == old(linker).contents() + seq![
                lit_bytes("wasi-config.get"),
                lit_bytes("wasi-config.get-all"),
            ],
            r is Err ==> *final(linker) == *old(linker),
            r matches Err(e) ==> (e matches StartError::LinkError(n) && n@ == lit_bytes(
                "wasi-config",
            )),
    {
        let spec = WasiConfig::host_spec();
        match linker.link(&spec) {
            Ok(()) => Ok(()),
            Err(e) => Err(e),
        }
    }
}

} // verus!
