//! The call-graph builder: the statically resolved call sites of each function.
use vstd::prelude::*;
use crate::analysis::cfg::{clone_span, Body, Callee, Location, Span, TerminatorKind};

verus! {

pub struct CallSite {
    pub caller: u64,
    pub location: Location,
    pub callee: u64,
    pub callee_name: String,
    /// The receiver type, where the call goes to a method through a known type.
    pub receiver_ty: Option<String>,
    pub span: Span,
}

impl CallSite {
    pub fn duplicate(&self) -> (r: Self)
        ensures
            r == *self,
    {
        let receiver_ty = match &self.receiver_ty {
            Some(t) => Some(t.clone()),
            None => None,
        };
        CallSite {
            caller: self.caller,
            location: self.location,
            callee: self.callee,
            callee_name: self.callee_name.clone(),
            receiver_ty,
            span: clone_span(&self.span),
        }
    }
}

/// The call site of the terminator of block `b`, if it is a resolved call.
pub open spec fn call_site_at(body: Body, b: int) -> Option<CallSite> {
    let bb = body.block(b);
    match bb.terminator.kind {
        TerminatorKind::Call(Some(c)) => Some(
            CallSite {
                caller: body.def_id,
                location: Location {
                    block: b as usize,
                    statement_index: bb.statements@.len() as usize,
                },
                callee: c.def_id,
                callee_name: c.name,
                receiver_ty: c.receiver_ty,
                span: bb.terminator.span,
            },
        ),
        _ => None,
    }
}

/// The call sites of the first `nb` blocks, in block order.
pub open spec fn call_sites_upto(body: Body, nb: int) -> Seq<CallSite>
    decreases nb,
{
    if nb <= 0 {
        Seq::empty()
    } else {
        let prev = call_sites_upto(body, nb - 1);
        match call_site_at(body, nb - 1) {
            Some(cs) => prev.push(cs),
            None => prev,
        }
    }
}

/// The call sites of a body, in block order.
pub open spec fn body_call_sites(body: Body) -> Seq<CallSite> {
    call_sites_upto(body, body.num_blocks())
}

/// The call sites recorded for function `f`: those of the last entry for `f`, or none.
pub open spec fn sites_of(entries: Seq<(u64, Seq<CallSite>)>, f: u64) -> Seq<CallSite>
    decreases entries.len(),
{
    if entries.len() == 0 {
        Seq::empty()
    } else if entries.last().0 == f {
        entries.last().1
    } else {
        sites_of(entries.drop_last(), f)
    }
}

/// The call sites of each analysed function.
pub struct CallGraph {
    pub callsites: Vec<(u64, Vec<CallSite>)>,
}

impl CallGraph {
    pub open spec fn entries(&self) -> Seq<(u64, Seq<CallSite>)> {
        self.callsites@.map_values(|e: (u64, Vec<CallSite>)| (e.0, e.1@))
    }

    pub fn new() -> (r: Self)
        ensures
            r.entries().len() == 0,
    {
        CallGraph { callsites: Vec::new() }
    }

    /// The call sites recorded for function `f`; `None` where it has none.
    pub fn get(&self, f: u64) -> (r: Option<&Vec<CallSite>>)
        ensures
            match r {
                Some(v) => v@ == sites_of(self.entries(), f),
                None => sites_of(self.entries(), f).len() == 0,
            },
    {
        let mut i: usize = self.callsites.len();
        proof {
            assert(self.entries().take(i as int) =~= self.entries());
        }
        while i > 0
            invariant
                i <= self.callsites@.len(),
                sites_of(self.entries(), f) == sites_of(self.entries().take(i as int), f),
            decreases i,
        {
            proof {
                assert(self.entries().take(i as int).drop_last() =~= self.entries().take(
                    i - 1,
                ));
            }
            if self.callsites[i - 1].0 == f {
                return Some(&self.callsites[i - 1].1);
            }
            i = i - 1;
        }
        None
    }
}

fn call_site_of(body: &Body, b: usize) -> (r: Option<CallSite>)
    requires
        b < body.num_blocks(),
    ensures
        r == call_site_at(*body, b as int),
{
    let bb = &body.basic_blocks[b];
    match &bb.terminator.kind {
        TerminatorKind::Call(Some(c)) => {
            let receiver_ty = match &c.receiver_ty {
                Some(t) => Some(t.clone()),
                None => None,
            };
            Some(
                CallSite {
                    caller: body.def_id,
                    location: Location { block: b, statement_index: bb.statements.len() },
                    callee: c.def_id,
                    callee_name: c.name.clone(),
                    receiver_ty,
                    span: clone_span(&bb.terminator.span),
                },
            )
        },
        _ => None,
    }
}

/// Runs the call-graph builder on one function body and records its call sites.
pub fn analyze_callgraph(body: &Body, callgraph: &mut CallGraph)
    ensures
        final(callgraph).entries() == old(callgraph).entries().push(
            (body.def_id, body_call_sites(*body)),
        ),
{
    let mut sites: Vec<CallSite> = Vec::new();
    let mut b: usize = 0;
    while b < body.basic_blocks.len()
        invariant
            b <= body.num_blocks(),
            sites@ == call_sites_upto(*body, b as int),
        decreases body.num_blocks() - b,
    {
        match call_site_of(body, b) {
            Some(cs) => sites.push(cs),
            None => {},
        }
        b = b + 1;
    }
    callgraph.callsites.push((body.def_id, sites));
    proof {
        assert(callgraph.entries() =~= old(callgraph).entries().push(
            (body.def_id, body_call_sites(*body)),
        ));
    }
}

} // verus!
