//! The analysis core: live ranges of lock guards, the call graph, and the search for blocking
//! calls made while a guard is held.
pub mod cfg;
pub mod lifetime;
pub mod call_graph;

use vstd::prelude::*;
use crate::analysis::cfg::{clone_span, Body, Location, Span};
use crate::analysis::lifetime::{
    analyze_lifetimes, find_record, is_lifetimes_of, lemma_record_iff_live,
    lemma_records_nonempty, live_locations, spans_of, Lifetime, Lifetimes,
};
use crate::analysis::call_graph::{
    analyze_callgraph, body_call_sites, sites_of, CallGraph, CallSite,
};

verus! {

/// The kinds of blocking operation searched for inside critical sections.
#[derive(Hash, Eq, PartialEq, Copy, Clone, Debug, Structural)]
pub enum CriticalSectionCall {
    ChSend,
    ChRecv,
    CondVarWait,
}

/// The spans of one guard's live range.
#[derive(Debug)]
pub struct HighlightArea {
    pub ranges: Vec<Span>,
}

/// A blocking call reached while a guard is live: the chain of call spans from the guard's
/// function to the blocking call, and the kind of that call.
#[derive(Debug)]
pub struct CallInCriticalSection {
    pub callchains: Vec<Span>,
    pub ty: CriticalSectionCall,
}

#[derive(Debug)]
pub struct AnalysisResult {
    pub calls: Vec<CallInCriticalSection>,
    pub critical_sections: Vec<HighlightArea>,
}

/// A finding as a value: its chain of spans and its kind.
pub type FindingView = (Seq<Span>, CriticalSectionCall);

impl View for CallInCriticalSection {
    type V = FindingView;

    open spec fn view(&self) -> FindingView {
        (self.callchains@, self.ty)
    }
}

pub open spec fn findings_view(v: Seq<CallInCriticalSection>) -> Seq<FindingView> {
    v.map_values(|c: CallInCriticalSection| c@)
}

pub open spec fn areas_view(v: Seq<HighlightArea>) -> Seq<Seq<Span>> {
    v.map_values(|a: HighlightArea| a.ranges@)
}

// ---------------------------------------------------------------------------------------------
// Blocking calls
/// `p` occurs in `s` as a contiguous run.
pub open spec fn has_substring(s: Seq<char>, p: Seq<char>) -> bool {
    exists|i: int| 0 <= i && i + p.len() <= s.len() && #[trigger] s.subrange(i, i + p.len()) == p
}

/// `pat` occurs in `s` at character position `i`.
fn matches_at(s: &str, pat: &str, i: usize, m: usize) -> (r: bool)
    requires
        m == pat@.len(),
        i + m <= s@.len(),
        s@.len() <= usize::MAX,
    ensures
        r == (s@.subrange(i as int, i + m) == pat@),
{
    let mut j: usize = 0;
    while j < m
        invariant
            m == pat@.len(),
            i + m <= s@.len(),
            s@.len() <= usize::MAX,
            j <= m,
            forall|t: int| 0 <= t < j ==> s@[i + t] == pat@[t],
        decreases m - j,
    {
        if s.get_char(i + j) != pat.get_char(j) {
            proof {
                assert(s@.subrange(i as int, i + m)[j as int] != pat@[j as int]);
            }
            return false;
        }
        j = j + 1;
    }
    proof {
        assert(s@.subrange(i as int, i + m) =~= pat@);
    }
    true
}

/// Whether `pat` occurs in `s`.
fn str_contains(s: &str, pat: &str) -> (r: bool)
    ensures
        r == has_substring(s@, pat@),
{
    let n = s.unicode_len();
    let m = pat.unicode_len();
    if m > n {
        return false;
    }
    if m == 0 {
        proof {
            assert(s@.subrange(0int, 0int + pat@.len()) =~= pat@);
        }
        return true;
    }
    let mut i: usize = 0;
    while i <= n - m
        invariant
            n == s@.len(),
            m == pat@.len(),
            0 < m <= n,
            i <= n - m + 1,
            forall|k: int| 0 <= k < i ==> #[trigger] s@.subrange(k, k + pat@.len()) != pat@,
        decreases n - m + 1 - i,
    {
        if matches_at(s, pat, i, m) {
            proof {
                assert(0 <= i && i + pat@.len() <= s@.len() && s@.subrange(
                    i as int,
                    i + pat@.len(),
                ) == pat@);
            }
            return true;
        }
        i = i + 1;
    }
    false
}

/// The call goes to the method `method` of a receiver whose type names `ty_path`.
pub open spec fn calls_method(cs: CallSite, ty_path: Seq<char>, method: Seq<char>) -> bool {
    match cs.receiver_ty {
        Some(t) => has_substring(t@, ty_path) && cs.callee_name@ == method,
        None => false,
    }
}

/// The kind of blocking operation a call site performs, if any.
pub open spec fn blocking_kind(cs: CallSite) -> Option<CriticalSectionCall> {
    if calls_method(cs, "std::sync::mpsc::Sender"@, "send"@) {
        Some(CriticalSectionCall::ChSend)
    } else if calls_method(cs, "std::sync::mpsc::Receiver"@, "recv"@) {
        Some(CriticalSectionCall::ChRecv)
    } else if calls_method(cs, "std::sync::Condvar"@, "wait"@) {
        Some(CriticalSectionCall::CondVarWait)
    } else {
        None
    }
}

fn calls_method_exec(cs: &CallSite, ty_path: &str, method: &str) -> (r: bool)
    ensures
        r == calls_method(*cs, ty_path@, method@),
{
    match &cs.receiver_ty {
        Some(t) => str_contains(t.as_str(), ty_path) && cs.callee_name == String::from_str(
            method,
        ),
        None => false,
    }
}

/// Classifies a call site against the table of blocking operations.
pub fn classify_call(cs: &CallSite) -> (r: Option<CriticalSectionCall>)
    ensures
        r == blocking_kind(*cs),
{
    if calls_method_exec(cs, "std::sync::mpsc::Sender", "send") {
        Some(CriticalSectionCall::ChSend)
    } else if calls_method_exec(cs, "std::sync::mpsc::Receiver", "recv") {
        Some(CriticalSectionCall::ChRecv)
    } else if calls_method_exec(cs, "std::sync::Condvar", "wait") {
        Some(CriticalSectionCall::CondVarWait)
    } else {
        None
    }
}

// ---------------------------------------------------------------------------------------------
// The search
/// Findings in the callee reached from the boundary call `head`: each blocking call among
/// `sites`, with the chain [head, that call].
pub open spec fn interior_findings(head: CallSite, sites: Seq<CallSite>) -> Seq<FindingView>
    decreases sites.len(),
{
    if sites.len() == 0 {
        Seq::empty()
    } else {
        let prev = interior_findings(head, sites.drop_last());
        match blocking_kind(sites.last()) {
            Some(k) => prev.push((seq![head.span, sites.last().span], k)),
            None => prev,
        }
    }
}

/// Findings for a guard live at `live`, among the call sites `sites` of its own function: a
/// blocking call inside the live range gives a chain of one; any other call inside it is
/// searched one level down.
pub open spec fn boundary_findings(
    live: Seq<Location>,
    entries: Seq<(u64, Seq<CallSite>)>,
    sites: Seq<CallSite>,
) -> Seq<FindingView>
    decreases sites.len(),
{
    if sites.len() == 0 {
        Seq::empty()
    } else {
        let prev = boundary_findings(live, entries, sites.drop_last());
        let cs = sites.last();
        if !live.contains(cs.location) {
            prev
        } else {
            match blocking_kind(cs) {
                Some(k) => prev.push((seq![cs.span], k)),
                None => prev + interior_findings(cs, sites_of(entries, cs.callee)),
            }
        }
    }
}

fn contains_location(v: &Vec<Location>, loc: Location) -> (r: bool)
    ensures
        r == v@.contains(loc),
{
    let mut i: usize = 0;
    while i < v.len()
        invariant
            i <= v@.len(),
            forall|k: int| 0 <= k < i ==> v@[k] != loc,
        decreases v@.len() - i,
    {
        if v[i] == loc {
            return true;
        }
        i = i + 1;
    }
    false
}

fn clone_chain(v: &Vec<CallSite>) -> (r: Vec<CallSite>)
    ensures
        r@ == v@,
{
    let mut r: Vec<CallSite> = Vec::new();
    let mut i: usize = 0;
    while i < v.len()
        invariant
            i <= v@.len(),
            r@ == v@.take(i as int),
        decreases v@.len() - i,
    {
        r.push(v[i].duplicate());
        proof {
            assert(r@ =~= v@.take(i + 1));
        }
        i = i + 1;
    }
    proof {
        assert(v@.take(v@.len() as int) =~= v@);
    }
    r
}

/// The spans of a call chain, in order.
pub fn callchains_to_spans(callchains: &Vec<CallSite>) -> (r: Vec<Span>)
    ensures
        r@ == callchains@.map_values(|c: CallSite| c.span),
{
    let mut r: Vec<Span> = Vec::new();
    let mut i: usize = 0;
    while i < callchains.len()
        invariant
            i <= callchains@.len(),
            r@ == callchains@.take(i as int).map_values(|c: CallSite| c.span),
        decreases callchains@.len() - i,
    {
        r.push(clone_span(&callchains[i].span));
        proof {
            assert(r@ =~= callchains@.take(i + 1).map_values(|c: CallSite| c.span));
        }
        i = i + 1;
    }
    proof {
        assert(callchains@.take(callchains@.len() as int) =~= callchains@);
    }
    r
}

/// Searches for blocking calls while the guard with record `lt` is live. With an empty chain,
/// `body_id` is the guard's own function and the search covers its calls inside the live range;
/// with a chain of one boundary call, `body_id` is that call's callee and the search covers all
/// of its calls. Findings are appended to `cs_calls`.
pub fn find_in_lifetime(
    lt: &Lifetime,
    body_id: u64,
    callgraph: &CallGraph,
    cs_calls: &mut Vec<CallInCriticalSection>,
    callchains: Vec<CallSite>,
)
    requires
        callchains@.len() <= 1,
    ensures
        findings_view(final(cs_calls)@) == findings_view(old(cs_calls)@) + (if callchains@.len()
            == 0 {
            boundary_findings(
                lt.live_locs@,
                callgraph.entries(),
                sites_of(callgraph.entries(), body_id),
            )
        } else {
            interior_findings(callchains@[0], sites_of(callgraph.entries(), body_id))
        }),
    decreases 1 - callchains@.len(),
{
    let ghost start = findings_view(cs_calls@);
    let sites = match callgraph.get(body_id) {
        Some(v) => v,
        None => {
            proof {
                assert(findings_view(cs_calls@) =~= start + Seq::<FindingView>::empty());
                assert(sites_of(callgraph.entries(), body_id) =~= Seq::<CallSite>::empty());
            }
            return ;
        },
    };
    let ghost entries = callgraph.entries();
    let mut i: usize = 0;
    while i < sites.len()
        invariant
            callchains@.len() <= 1,
            entries == callgraph.entries(),
            sites@ == sites_of(entries, body_id),
            i <= sites@.len(),
            findings_view(cs_calls@) == start + (if callchains@.len() == 0 {
                boundary_findings(lt.live_locs@, entries, sites@.take(i as int))
            } else {
                interior_findings(callchains@[0], sites@.take(i as int))
            }),
        decreases sites@.len() - i,
    {
        let cs = &sites[i];
        let kind = classify_call(cs);
        let ghost before = findings_view(cs_calls@);
        proof {
            assert(sites@.take(i + 1).drop_last() =~= sites@.take(i as int));
            assert(sites@.take(i + 1).last() == *cs);
        }
        if callchains.len() == 0 {
            if contains_location(&lt.live_locs, cs.location) {
                let mut new_cc = clone_chain(&callchains);
                new_cc.push(cs.duplicate());
                match kind {
                    Some(k) => {
                        let spans = callchains_to_spans(&new_cc);
                        proof {
                            assert(new_cc@ =~= seq![*cs]);
                            assert(spans@ =~= seq![cs.span]);
                        }
                        cs_calls.push(CallInCriticalSection { callchains: spans, ty: k });
                        proof {
                            assert(findings_view(cs_calls@) =~= before.push((seq![cs.span], k)));
                        }
                    },
                    None => {
                        proof {
                            assert(new_cc@ =~= seq![*cs]);
                        }
                        find_in_lifetime(lt, cs.callee, callgraph, cs_calls, new_cc);
                    },
                }
            }
        } else {
            if let Some(k) = kind {
                let mut new_cc = clone_chain(&callchains);
                new_cc.push(cs.duplicate());
                let spans = callchains_to_spans(&new_cc);
                proof {
                    assert(new_cc@ =~= seq![callchains@[0], *cs]);
                    assert(spans@ =~= seq![callchains@[0].span, cs.span]);
                }
                cs_calls.push(CallInCriticalSection { callchains: spans, ty: k });
                proof {
                    assert(findings_view(cs_calls@) =~= before.push(
                        (seq![callchains@[0].span, cs.span], k),
                    ));
                }
            }
        }
        proof {
            assert(findings_view(cs_calls@) =~= start + (if callchains@.len() == 0 {
                boundary_findings(lt.live_locs@, entries, sites@.take(i + 1))
            } else {
                interior_findings(callchains@[0], sites@.take(i + 1))
            }));
        }
        i = i + 1;
    }
    proof {
        assert(sites@.take(sites@.len() as int) =~= sites@);
    }
}

// ---------------------------------------------------------------------------------------------
// The orchestrator
/// The highlight area of a liveness record: all of its spans.
pub fn lifetime_to_highlight_area(l: &Lifetime) -> (r: HighlightArea)
    ensures
        r.ranges@ == l.live_span@,
{
    let mut ranges: Vec<Span> = Vec::new();
    let mut i: usize = 0;
    while i < l.live_span.len()
        invariant
            i <= l.live_span@.len(),
            ranges@ == l.live_span@.take(i as int),
        decreases l.live_span@.len() - i,
    {
        ranges.push(clone_span(&l.live_span[i]));
        proof {
            assert(ranges@ =~= l.live_span@.take(i + 1));
        }
        i = i + 1;
    }
    proof {
        assert(l.live_span@.take(l.live_span@.len() as int) =~= l.live_span@);
    }
    HighlightArea { ranges }
}

/// The guard locals among the first `n` locals of `body`, in index order.
pub open spec fn guards_upto(body: Body, n: int) -> Seq<usize>
    decreases n,
{
    if n <= 0 {
        Seq::empty()
    } else if body.local_decls@[n - 1].is_guard {
        guards_upto(body, n - 1).push((n - 1) as usize)
    } else {
        guards_upto(body, n - 1)
    }
}

pub open spec fn guard_locals(body: Body) -> Seq<usize> {
    guards_upto(body, body.local_decls@.len() as int)
}

/// The locals of `body` whose declared type is a lock guard, in index order.
pub fn filter_body_locals(body: &Body) -> (r: Vec<usize>)
    ensures
        r@ == guard_locals(*body),
        forall|k: int| 0 <= k < r@.len() ==> #[trigger] r@[k] < body.local_decls@.len(),
{
    let mut r: Vec<usize> = Vec::new();
    let mut l: usize = 0;
    while l < body.local_decls.len()
        invariant
            l <= body.local_decls@.len(),
            r@ == guards_upto(*body, l as int),
            forall|k: int| 0 <= k < r@.len() ==> #[trigger] r@[k] < l,
        decreases body.local_decls@.len() - l,
    {
        if body.local_decls[l].is_guard {
            r.push(l);
        }
        l = l + 1;
    }
    r
}

/// The call graph of a set of bodies, one entry per body in order.
pub open spec fn callgraph_of(bodies: Seq<Body>) -> Seq<(u64, Seq<CallSite>)> {
    bodies.map_values(|b: Body| (b.def_id, body_call_sites(b)))
}

/// The findings of the guards `guards` of `body`, guard by guard.
pub open spec fn guard_findings(
    body: Body,
    entries: Seq<(u64, Seq<CallSite>)>,
    guards: Seq<usize>,
) -> Seq<FindingView>
    decreases guards.len(),
{
    if guards.len() == 0 {
        Seq::empty()
    } else {
        guard_findings(body, entries, guards.drop_last()) + boundary_findings(
            live_locations(body, guards.last()),
            entries,
            sites_of(entries, body.def_id),
        )
    }
}

/// The highlight areas of the guards `guards` of `body` that are live somewhere.
pub open spec fn guard_areas(body: Body, guards: Seq<usize>) -> Seq<Seq<Span>>
    decreases guards.len(),
{
    if guards.len() == 0 {
        Seq::empty()
    } else {
        let prev = guard_areas(body, guards.drop_last());
        let locs = live_locations(body, guards.last());
        if locs.len() > 0 {
            prev.push(spans_of(body, locs))
        } else {
            prev
        }
    }
}

pub open spec fn findings_upto(
    bodies: Seq<Body>,
    entries: Seq<(u64, Seq<CallSite>)>,
    k: int,
) -> Seq<FindingView>
    decreases k,
{
    if k <= 0 {
        Seq::empty()
    } else {
        findings_upto(bodies, entries, k - 1) + guard_findings(
            bodies[k - 1],
            entries,
            guard_locals(bodies[k - 1]),
        )
    }
}

pub open spec fn areas_upto(bodies: Seq<Body>, k: int) -> Seq<Seq<Span>>
    decreases k,
{
    if k <= 0 {
        Seq::empty()
    } else {
        areas_upto(bodies, k - 1) + guard_areas(bodies[k - 1], guard_locals(bodies[k - 1]))
    }
}

/// `r` is the analysis result of `bodies`.
pub open spec fn is_analysis_of(bodies: Seq<Body>, r: AnalysisResult) -> bool {
    &&& findings_view(r.calls@) == findings_upto(bodies, callgraph_of(bodies), bodies.len() as int)
    &&& areas_view(r.critical_sections@) == areas_upto(bodies, bodies.len() as int)
}

/// Analyses a set of function bodies: the findings of every guard of every body, and the
/// highlight area of every guard that is live somewhere.
pub fn analyze(bodies: &Vec<Body>) -> (r: AnalysisResult)
    requires
        forall|k: int| 0 <= k < bodies@.len() ==> (#[trigger] bodies@[k]).wf(),
    ensures
        is_analysis_of(bodies@, r),
{
    let n = bodies.len();
    let mut callgraph = CallGraph::new();
    let mut lifetimes = Lifetimes::new();
    let mut k: usize = 0;
    while k < n
        invariant
            n == bodies@.len(),
            k <= n,
            forall|j: int| 0 <= j < n ==> (#[trigger] bodies@[j]).wf(),
            callgraph.entries() == callgraph_of(bodies@.take(k as int)),
            lifetimes.entries().len() == k,
            forall|j: int|
                0 <= j < k ==> is_lifetimes_of(bodies@[j], #[trigger] lifetimes.entries()[j].1),
        decreases n - k,
    {
        let ghost before = lifetimes.entries();
        analyze_lifetimes(&bodies[k], &mut lifetimes);
        proof {
            assert forall|j: int| 0 <= j < k + 1 implies is_lifetimes_of(
                bodies@[j],
                #[trigger] lifetimes.entries()[j].1,
            ) by {
                if j < k {
                    assert(lifetimes.entries().drop_last()[j] == before[j]);
                }
            }
        }
        analyze_callgraph(&bodies[k], &mut callgraph);
        proof {
            assert(callgraph.entries() =~= callgraph_of(bodies@.take(k + 1)));
        }
        k = k + 1;
    }
    proof {
        assert(bodies@.take(n as int) =~= bodies@);
    }
    let ghost entries = callgraph.entries();
    let mut calls: Vec<CallInCriticalSection> = Vec::new();
    let mut areas: Vec<HighlightArea> = Vec::new();
    k = 0;
    while k < n
        invariant
            n == bodies@.len(),
            k <= n,
            entries == callgraph.entries(),
            entries == callgraph_of(bodies@),
            forall|j: int| 0 <= j < n ==> (#[trigger] bodies@[j]).wf(),
            lifetimes.entries().len() == n,
            forall|j: int|
                0 <= j < n ==> is_lifetimes_of(bodies@[j], #[trigger] lifetimes.entries()[j].1),
            findings_view(calls@) == findings_upto(bodies@, entries, k as int),
            areas_view(areas@) == areas_upto(bodies@, k as int),
        decreases n - k,
    {
        let body = &bodies[k];
        let lts = &lifetimes.body_local_lifetimes[k].1;
        let guards = filter_body_locals(body);
        let ghost calls0 = findings_view(calls@);
        let ghost areas0 = areas_view(areas@);
        proof {
            assert(is_lifetimes_of(bodies@[k as int], lifetimes.entries()[k as int].1));
        }
        let mut gi: usize = 0;
        while gi < guards.len()
            invariant
                body == bodies@[k as int],
                body.wf(),
                lts@ == lifetimes.entries()[k as int].1,
                is_lifetimes_of(*body, lts@),
                guards@ == guard_locals(*body),
                forall|j: int| 0 <= j < guards@.len() ==> #[trigger] guards@[j] < body.local_decls@.len(),
                gi <= guards@.len(),
                entries == callgraph.entries(),
                calls0 == findings_upto(bodies@, entries, k as int),
                areas0 == areas_upto(bodies@, k as int),
                findings_view(calls@) == calls0 + guard_findings(
                    *body,
                    entries,
                    guards@.take(gi as int),
                ),
                areas_view(areas@) == areas0 + guard_areas(*body, guards@.take(gi as int)),
            decreases guards@.len() - gi,
        {
            let g = guards[gi];
            proof {
                assert(guards@.take(gi + 1).drop_last() =~= guards@.take(gi as int));
                assert(guards@.take(gi + 1).last() == g);
            }
            let ghost areas1 = areas_view(areas@);
            match find_record(lts, g) {
                Some(ri) => {
                    let lt = &lts[ri].1;
                    proof {
                        lemma_records_nonempty(*body, lts@, ri as int);
                    }
                    areas.push(lifetime_to_highlight_area(lt));
                    proof {
                        assert(areas_view(areas@) =~= areas1.push(lt.live_span@));
                        assert(areas_view(areas@) =~= areas0 + guard_areas(
                            *body,
                            guards@.take(gi + 1),
                        ));
                    }
                    find_in_lifetime(lt, body.def_id, &callgraph, &mut calls, Vec::new());
                },
                None => {
                    proof {
                        lemma_record_iff_live(*body, lts@, g);
                        let live = live_locations(*body, g);
                        lemma_no_call_in_range(live, entries, sites_of(entries, body.def_id));
                        assert(areas_view(areas@) =~= areas0 + guard_areas(
                            *body,
                            guards@.take(gi + 1),
                        ));
                        assert(findings_view(calls@) =~= findings_view(calls@) + Seq::<
                            FindingView,
                        >::empty());
                    }
                },
            }
            proof {
                assert(findings_view(calls@) =~= calls0 + guard_findings(
                    *body,
                    entries,
                    guards@.take(gi + 1),
                ));
            }
            gi = gi + 1;
        }
        proof {
            assert(guards@.take(guards@.len() as int) =~= guards@);
            assert(findings_view(calls@) =~= findings_upto(bodies@, entries, k + 1));
            assert(areas_view(areas@) =~= areas_upto(bodies@, k + 1));
        }
        k = k + 1;
    }
    AnalysisResult { calls, critical_sections: areas }
}

// ---------------------------------------------------------------------------------------------
// Laws
pub open spec fn chains_bounded(fs: Seq<FindingView>) -> bool {
    forall|i: int| 0 <= i < fs.len() ==> 1 <= (#[trigger] fs[i]).0.len() <= 2
}

proof fn lemma_concat_bounded(a: Seq<FindingView>, b: Seq<FindingView>)
    requires
        chains_bounded(a),
        chains_bounded(b),
    ensures
        chains_bounded(a + b),
{
    assert forall|i: int| 0 <= i < (a + b).len() implies 1 <= (#[trigger] (a + b)[i]).0.len()
        <= 2 by {
        if i < a.len() {
            assert((a + b)[i] == a[i]);
        } else {
            assert((a + b)[i] == b[i - a.len()]);
        }
    }
}

proof fn lemma_interior_chains(head: CallSite, sites: Seq<CallSite>)
    ensures
        forall|i: int|
            0 <= i < interior_findings(head, sites).len() ==> (#[trigger] interior_findings(
                head,
                sites,
            )[i]).0.len() == 2,
    decreases sites.len(),
{
    if sites.len() > 0 {
        lemma_interior_chains(head, sites.drop_last());
        let prev = interior_findings(head, sites.drop_last());
        let cur = interior_findings(head, sites);
        assert forall|i: int| 0 <= i < cur.len() implies (#[trigger] cur[i]).0.len() == 2 by {
            if i < prev.len() {
                assert(cur[i] == prev[i]);
            } else {
                assert(cur[i].0 == seq![head.span, sites.last().span]);
            }
        }
    }
}

proof fn lemma_boundary_chains(
    live: Seq<Location>,
    entries: Seq<(u64, Seq<CallSite>)>,
    sites: Seq<CallSite>,
)
    ensures
        chains_bounded(boundary_findings(live, entries, sites)),
    decreases sites.len(),
{
    if sites.len() > 0 {
        lemma_boundary_chains(live, entries, sites.drop_last());
        let cs = sites.last();
        let prev = boundary_findings(live, entries, sites.drop_last());
        if live.contains(cs.location) {
            match blocking_kind(cs) {
                Some(k) => {
                    assert(chains_bounded(seq![(seq![cs.span], k)]));
                    lemma_concat_bounded(prev, seq![(seq![cs.span], k)]);
                    assert(prev.push((seq![cs.span], k)) =~= prev + seq![(seq![cs.span], k)]);
                },
                None => {
                    lemma_interior_chains(cs, sites_of(entries, cs.callee));
                    lemma_concat_bounded(prev, interior_findings(cs, sites_of(entries, cs.callee)));
                },
            }
        }
    }
}

proof fn lemma_findings_upto_chains(bodies: Seq<Body>, entries: Seq<(u64, Seq<CallSite>)>, k: int)
    requires
        k <= bodies.len(),
    ensures
        chains_bounded(findings_upto(bodies, entries, k)),
    decreases k,
{
    if k > 0 {
        lemma_findings_upto_chains(bodies, entries, k - 1);
        lemma_guard_chains(bodies[k - 1], entries, guard_locals(bodies[k - 1]));
        lemma_concat_bounded(
            findings_upto(bodies, entries, k - 1),
            guard_findings(bodies[k - 1], entries, guard_locals(bodies[k - 1])),
        );
    }
}

proof fn lemma_guard_chains(body: Body, entries: Seq<(u64, Seq<CallSite>)>, guards: Seq<usize>)
    ensures
        chains_bounded(guard_findings(body, entries, guards)),
    decreases guards.len(),
{
    if guards.len() > 0 {
        lemma_guard_chains(body, entries, guards.drop_last());
        lemma_boundary_chains(
            live_locations(body, guards.last()),
            entries,
            sites_of(entries, body.def_id),
        );
        lemma_concat_bounded(
            guard_findings(body, entries, guards.drop_last()),
            boundary_findings(
                live_locations(body, guards.last()),
                entries,
                sites_of(entries, body.def_id),
            ),
        );
    }
}

/// Every finding has a call chain of length one (a blocking call inside the guard's own live
/// range) or two (a blocking call in a function called from inside it); none is longer.
pub proof fn lemma_chain_length(bodies: Seq<Body>, r: AnalysisResult)
    requires
        is_analysis_of(bodies, r),
    ensures
        forall|i: int|
            0 <= i < r.calls@.len() ==> 1 <= (#[trigger] r.calls@[i]).callchains@.len() <= 2,
{
    lemma_findings_upto_chains(bodies, callgraph_of(bodies), bodies.len() as int);
    assert forall|i: int| 0 <= i < r.calls@.len() implies 1 <= (
    #[trigger] r.calls@[i]).callchains@.len() <= 2 by {
        assert(findings_view(r.calls@)[i] == r.calls@[i]@);
    }
}

/// Two call graphs built over the same bodies record the same call sites for every function.
pub proof fn lemma_callgraph_deterministic(bodies: Seq<Body>, g1: CallGraph, g2: CallGraph)
    requires
        g1.entries() == callgraph_of(bodies),
        g2.entries() == callgraph_of(bodies),
    ensures
        forall|f: u64| #[trigger] sites_of(g1.entries(), f) == sites_of(g2.entries(), f),
{
}

/// Analysing the same bodies twice gives the same findings and the same highlight areas.
pub proof fn lemma_analysis_deterministic(bodies: Seq<Body>, r1: AnalysisResult, r2: AnalysisResult)
    requires
        is_analysis_of(bodies, r1),
        is_analysis_of(bodies, r2),
    ensures
        findings_view(r1.calls@) == findings_view(r2.calls@),
        areas_view(r1.critical_sections@) == areas_view(r2.critical_sections@),
{
}

/// A guard whose live range holds none of its function's call sites gives no finding; in
/// particular a guard released before any call executes, and a guard never live.
pub proof fn lemma_no_call_in_range(
    live: Seq<Location>,
    entries: Seq<(u64, Seq<CallSite>)>,
    sites: Seq<CallSite>,
)
    requires
        forall|i: int| 0 <= i < sites.len() ==> !live.contains(#[trigger] sites[i].location),
    ensures
        boundary_findings(live, entries, sites) == Seq::<FindingView>::empty(),
    decreases sites.len(),
{
    if sites.len() > 0 {
        lemma_no_call_in_range(live, entries, sites.drop_last());
        assert(!live.contains(sites[sites.len() - 1].location));
    }
}

proof fn lemma_interior_head(head: CallSite, sites: Seq<CallSite>)
    ensures
        forall|k: int|
            0 <= k < interior_findings(head, sites).len() ==> (#[trigger] interior_findings(
                head,
                sites,
            )[k]).0[0] == head.span,
    decreases sites.len(),
{
    if sites.len() > 0 {
        lemma_interior_head(head, sites.drop_last());
        let prev = interior_findings(head, sites.drop_last());
        let cur = interior_findings(head, sites);
        assert forall|k: int| 0 <= k < cur.len() implies (#[trigger] cur[k]).0[0] == head.span by {
            if k < prev.len() {
                assert(cur[k] == prev[k]);
            }
        }
    }
}

/// The finding `f` starts at the call site `sites[i]`, which lies in the live range `live`.
pub open spec fn starts_in_range(
    f: FindingView,
    live: Seq<Location>,
    sites: Seq<CallSite>,
    i: int,
) -> bool {
    0 <= i < sites.len() && live.contains(sites[i].location) && f.0.len() > 0 && f.0[0]
        == sites[i].span
}

proof fn lemma_finding_start(
    live: Seq<Location>,
    entries: Seq<(u64, Seq<CallSite>)>,
    sites: Seq<CallSite>,
    k: int,
) -> (i: int)
    requires
        0 <= k < boundary_findings(live, entries, sites).len(),
    ensures
        starts_in_range(boundary_findings(live, entries, sites)[k], live, sites, i),
    decreases sites.len(),
{
    let pre = sites.drop_last();
    let prev = boundary_findings(live, entries, pre);
    let cur = boundary_findings(live, entries, sites);
    let last = sites.len() - 1;
    let cs = sites[last];
    if k < prev.len() {
        assert(cur[k] == prev[k]);
        let i = lemma_finding_start(live, entries, pre, k);
        assert(pre[i] == sites[i]);
        i
    } else {
        lemma_interior_head(cs, sites_of(entries, cs.callee));
        lemma_interior_chains(cs, sites_of(entries, cs.callee));
        assert(live.contains(sites[last].location));
        match blocking_kind(cs) {
            Some(kind) => {
                assert(cur[k].0 == seq![cs.span]);
            },
            None => {
                let inner = interior_findings(cs, sites_of(entries, cs.callee));
                assert(cur[k] == inner[k - prev.len()]);
            },
        }
        last
    }
}

/// Every finding of a guard starts at a call site of the guard's own function that lies in the
/// guard's live range: findings belong to the guard whose range they were found in.
pub proof fn lemma_findings_attributed(
    live: Seq<Location>,
    entries: Seq<(u64, Seq<CallSite>)>,
    sites: Seq<CallSite>,
    k: int,
)
    requires
        0 <= k < boundary_findings(live, entries, sites).len(),
    ensures
        exists|i: int| starts_in_range(boundary_findings(live, entries, sites)[k], live, sites, i),
{
    let i = lemma_finding_start(live, entries, sites, k);
    assert(starts_in_range(boundary_findings(live, entries, sites)[k], live, sites, i));
}

} // verus!
