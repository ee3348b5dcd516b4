//! The liveness engine: which locals hold their storage at which program points.
//!
//! The effect of a block on one local is a function of the local's state on entry, so the
//! state of a local at a point is decided by the paths from the function's entry to that point.
//! The engine searches the graph whose nodes are (block, state of the local on entry).
use vstd::prelude::*;
use vstd::set_lib::*;
use vstd::set::group_set_axioms;
use crate::analysis::cfg::{clone_span, Body, Location, Rvalue, Span, StatementKind, TerminatorKind};

verus! {

broadcast use group_set_axioms;

/// The live locations of one local in one function, with the span of each.
#[derive(Clone, Debug)]
pub struct Lifetime {
    pub body_id: u64,
    /// In program order: by block, then by statement.
    pub live_locs: Vec<Location>,
    /// `live_span[k]` is the span of `live_locs[k]`.
    pub live_span: Vec<Span>,
}

impl Lifetime {
    pub fn new(body_id: u64) -> (r: Self)
        ensures
            r.body_id == body_id,
            r.live_locs@.len() == 0,
            r.live_span@.len() == 0,
    {
        Lifetime { body_id, live_locs: Vec::new(), live_span: Vec::new() }
    }

    /// Records one more live location, with its span.
    pub fn add_live_loc(&mut self, loc: Location, span: Span)
        ensures
            final(self).body_id == old(self).body_id,
            final(self).live_locs@ == old(self).live_locs@.push(loc),
            final(self).live_span@ == old(self).live_span@.push(span),
    {
        self.live_locs.push(loc);
        self.live_span.push(span);
    }
}

/// The lifetime store: for every analysed function, the records of its locals that are live
/// somewhere, each with its local index.
pub struct Lifetimes {
    pub body_local_lifetimes: Vec<(u64, Vec<(usize, Lifetime)>)>,
}

impl Lifetimes {
    pub open spec fn entries(&self) -> Seq<(u64, Seq<(usize, Lifetime)>)> {
        self.body_local_lifetimes@.map_values(|e: (u64, Vec<(usize, Lifetime)>)| (e.0, e.1@))
    }

    pub fn new() -> (r: Self)
        ensures
            r.entries().len() == 0,
    {
        Lifetimes { body_local_lifetimes: Vec::new() }
    }
}

// ---------------------------------------------------------------------------------------------
// Transfer rules
/// Whether `l` is live after a statement of kind `k`, given whether it was live before.
pub open spec fn statement_effect(k: StatementKind, l: usize, live: bool) -> bool {
    match k {
        StatementKind::StorageLive(x) => if x == l { true } else { live },
        StatementKind::StorageDead(x) => if x == l { false } else { live },
        StatementKind::Assign(_, Rvalue::Move(x)) => if x == l { false } else { live },
        _ => live,
    }
}

/// Whether `l` is live after a terminator of kind `k`, given whether it was live before.
pub open spec fn terminator_effect(k: TerminatorKind, l: usize, live: bool) -> bool {
    match k {
        TerminatorKind::Drop(x) => if x == l { false } else { live },
        _ => live,
    }
}

/// Whether `l` is live before statement `i` of block `b`, given its state on entry to `b`.
pub open spec fn live_before(body: Body, l: usize, b: int, i: int, entry: bool) -> bool
    decreases i,
{
    if i <= 0 {
        entry
    } else {
        statement_effect(
            body.block(b).statements@[i - 1].kind,
            l,
            live_before(body, l, b, i - 1, entry),
        )
    }
}

/// Whether `l` is live on leaving block `b`, given its state on entry to `b`.
pub open spec fn block_exit(body: Body, l: usize, b: int, entry: bool) -> bool {
    let n = body.block(b).statements@.len() as int;
    terminator_effect(body.block(b).terminator.kind, l, live_before(body, l, b, n, entry))
}

// ---------------------------------------------------------------------------------------------
// Paths
/// `c` is a successor of block `a`.
pub open spec fn is_edge(body: Body, a: int, c: int) -> bool {
    &&& 0 <= a < body.num_blocks()
    &&& 0 <= c < body.num_blocks()
    &&& body.block(a).terminator.successors@.contains(c as usize)
}

/// A path of blocks from the entry block.
pub open spec fn is_entry_path(body: Body, p: Seq<int>) -> bool {
    &&& p.len() >= 1
    &&& p[0] == 0
    &&& forall|k: int| 0 <= k < p.len() ==> 0 <= #[trigger] p[k] < body.num_blocks()
    &&& forall|k: int| 0 <= k < p.len() - 1 ==> is_edge(body, #[trigger] p[k], p[k + 1])
}

/// The state of `l` on entry to the last block of `p`, following the transfer rules along `p`
/// from the empty state at the function's entry.
pub open spec fn run_path(body: Body, l: usize, p: Seq<int>) -> bool
    decreases p.len(),
{
    if p.len() <= 1 {
        false
    } else {
        block_exit(body, l, p[p.len() - 2], run_path(body, l, p.drop_last()))
    }
}

pub open spec fn path_reaches(body: Body, l: usize, p: Seq<int>, b: int, s: bool) -> bool {
    is_entry_path(body, p) && p.last() == b && run_path(body, l, p) == s
}

/// Some path from the entry reaches block `b` with `l` in state `s`.
pub open spec fn entry_state_reachable(body: Body, l: usize, b: int, s: bool) -> bool {
    exists|p: Seq<int>| #[trigger] path_reaches(body, l, p, b, s)
}

/// With `l` in state `entry` on entry to its block, `loc` records `l` as live: `l` is live
/// after the statement at `loc`, or `loc` is a call and `l` is live across it.
pub open spec fn witness_at(body: Body, l: usize, loc: Location, entry: bool) -> bool {
    let b = loc.block as int;
    let i = loc.statement_index as int;
    let n = body.block(b).statements@.len() as int;
    if i < n {
        live_before(body, l, b, i + 1, entry)
    } else if i == n {
        body.block(b).terminator.kind is Call && live_before(body, l, b, n, entry)
    } else {
        false
    }
}

/// `loc` belongs to the live range of `l`.
pub open spec fn is_live_at(body: Body, l: usize, loc: Location) -> bool {
    let b = loc.block as int;
    &&& b < body.num_blocks()
    &&& {
        ||| entry_state_reachable(body, l, b, true) && witness_at(body, l, loc, true)
        ||| entry_state_reachable(body, l, b, false) && witness_at(body, l, loc, false)
    }
}

/// The live locations of `l` among the first `i` locations of block `b`, in order.
pub open spec fn block_live_locs(body: Body, l: usize, b: int, i: int) -> Seq<Location>
    decreases i,
{
    if i <= 0 {
        Seq::empty()
    } else {
        let prev = block_live_locs(body, l, b, i - 1);
        let loc = Location { block: b as usize, statement_index: (i - 1) as usize };
        if is_live_at(body, l, loc) {
            prev.push(loc)
        } else {
            prev
        }
    }
}

/// The live locations of `l` in the first `nb` blocks, in program order.
pub open spec fn live_locs_upto(body: Body, l: usize, nb: int) -> Seq<Location>
    decreases nb,
{
    if nb <= 0 {
        Seq::empty()
    } else {
        live_locs_upto(body, l, nb - 1) + block_live_locs(
            body,
            l,
            nb - 1,
            body.block(nb - 1).statements@.len() + 1int,
        )
    }
}

/// The live locations of `l` in the whole body, in program order.
pub open spec fn live_locations(body: Body, l: usize) -> Seq<Location> {
    live_locs_upto(body, l, body.num_blocks())
}

/// The spans of a sequence of locations.
pub open spec fn spans_of(body: Body, locs: Seq<Location>) -> Seq<Span> {
    locs.map_values(|loc: Location| body.span_at(loc))
}

/// `lt` is the liveness record of local `l` of `body`.
pub open spec fn is_lifetime_of(body: Body, l: usize, lt: Lifetime) -> bool {
    &&& lt.body_id == body.def_id
    &&& lt.live_locs@ == live_locations(body, l)
    &&& lt.live_span@ == spans_of(body, live_locations(body, l))
}

// ---------------------------------------------------------------------------------------------
// Executable transfer functions
/// Whether `l` is live after a statement of kind `k`.
pub fn apply_statement_effect(k: &StatementKind, l: usize, live: bool) -> (r: bool)
    ensures
        r == statement_effect(*k, l, live),
{
    match k {
        StatementKind::StorageLive(x) => if *x == l { true } else { live },
        StatementKind::StorageDead(x) => if *x == l { false } else { live },
        StatementKind::Assign(_, Rvalue::Move(x)) => if *x == l { false } else { live },
        _ => live,
    }
}

/// Whether `l` is live after a terminator of kind `k`.
pub fn apply_terminator_effect(k: &TerminatorKind, l: usize, live: bool) -> (r: bool)
    ensures
        r == terminator_effect(*k, l, live),
{
    match k {
        TerminatorKind::Drop(x) => if *x == l { false } else { live },
        _ => live,
    }
}

/// The state of `l` on leaving block `b`, given its state on entry.
fn exit_state(body: &Body, l: usize, b: usize, entry: bool) -> (r: bool)
    requires
        body.wf(),
        b < body.num_blocks(),
    ensures
        r == block_exit(*body, l, b as int, entry),
{
    let bb = &body.basic_blocks[b];
    let mut live = entry;
    let mut i: usize = 0;
    while i < bb.statements.len()
        invariant
            bb == body.block(b as int),
            i <= bb.statements@.len(),
            live == live_before(*body, l, b as int, i as int, entry),
        decreases bb.statements@.len() - i,
    {
        live = apply_statement_effect(&bb.statements[i].kind, l, live);
        i = i + 1;
    }
    apply_terminator_effect(&bb.terminator.kind, l, live)
}

// ---------------------------------------------------------------------------------------------
// The search over (block, state on entry)
spec fn marked(mt: Seq<bool>, mf: Seq<bool>, b: int, s: bool) -> bool {
    if s {
        mt[b]
    } else {
        mf[b]
    }
}

/// Every successor node of a marked node is marked.
spec fn closed(body: Body, l: usize, mt: Seq<bool>, mf: Seq<bool>) -> bool {
    forall|b: int, s: bool, j: int|
        #![trigger marked(mt, mf, b, s), body.block(b).terminator.successors@[j]]
        0 <= b < body.num_blocks() && marked(mt, mf, b, s) && 0 <= j
            < body.block(b).terminator.successors@.len() ==> marked(
            mt,
            mf,
            body.block(b).terminator.successors@[j] as int,
            block_exit(body, l, b, s),
        )
}

proof fn lemma_extend_path(body: Body, l: usize, p: Seq<int>, b: int, s: bool, c: int)
    requires
        body.wf(),
        path_reaches(body, l, p, b, s),
        is_edge(body, b, c),
    ensures
        path_reaches(body, l, p.push(c), c, block_exit(body, l, b, s)),
{
    let q = p.push(c);
    assert(q.drop_last() =~= p);
    let j = choose|j: int|
        0 <= j < body.block(b).terminator.successors@.len()
            && body.block(b).terminator.successors@[j] == c as usize;
    assert(body.block(b).wf(body.num_blocks()));
    assert(0 <= c < body.num_blocks());
    assert forall|k: int| 0 <= k < q.len() implies 0 <= #[trigger] q[k] < body.num_blocks() by {
        if k < p.len() {
            assert(q[k] == p[k]);
        }
    }
    assert forall|k: int| 0 <= k < q.len() - 1 implies is_edge(body, #[trigger] q[k], q[k + 1]) by {
        if k < p.len() - 1 {
            assert(q[k] == p[k] && q[k + 1] == p[k + 1]);
        } else {
            assert(q[k] == b && q[k + 1] == c);
        }
    }
}

/// In a closed marking that holds the entry node, every node that a path reaches is marked.
proof fn lemma_paths_marked(body: Body, l: usize, mt: Seq<bool>, mf: Seq<bool>, p: Seq<int>)
    requires
        body.wf(),
        mt.len() == body.num_blocks(),
        mf.len() == body.num_blocks(),
        mf[0],
        closed(body, l, mt, mf),
        is_entry_path(body, p),
    ensures
        marked(mt, mf, p.last(), run_path(body, l, p)),
    decreases p.len(),
{
    if p.len() > 1 {
        let q = p.drop_last();
        let b = q.last();
        assert(p[p.len() - 2] == b);
        assert(is_edge(body, p[p.len() - 2], p[p.len() - 1]));
        assert forall|k: int| 0 <= k < q.len() - 1 implies is_edge(body, #[trigger] q[k], q[k + 1]) by {
            assert(q[k] == p[k] && q[k + 1] == p[k + 1]);
        }
        assert forall|k: int| 0 <= k < q.len() implies 0 <= #[trigger] q[k] < body.num_blocks() by {
            assert(q[k] == p[k]);
        }
        lemma_paths_marked(body, l, mt, mf, q);
        let c = p.last();
        let j = choose|j: int|
            0 <= j < body.block(b).terminator.successors@.len()
                && body.block(b).terminator.successors@[j] == c as usize;
        assert(marked(mt, mf, b, run_path(body, l, q)));
        assert(body.block(b).terminator.successors@[j] as int == c);
    }
}

/// For every block, whether some path from the entry reaches it with `l` live (first vector)
/// and with `l` not live (second vector).
fn entry_states(body: &Body, l: usize) -> (r: (Vec<bool>, Vec<bool>))
    requires
        body.wf(),
    ensures
        r.0@.len() == body.num_blocks(),
        r.1@.len() == body.num_blocks(),
        forall|b: int|
            0 <= b < body.num_blocks() ==> #[trigger] r.0@[b] == entry_state_reachable(
                *body,
                l,
                b,
                true,
            ),
        forall|b: int|
            0 <= b < body.num_blocks() ==> #[trigger] r.1@[b] == entry_state_reachable(
                *body,
                l,
                b,
                false,
            ),
{
    let nb = body.basic_blocks.len();
    let mut mt: Vec<bool> = Vec::new();
    let mut mf: Vec<bool> = Vec::new();
    let mut i: usize = 0;
    while i < nb
        invariant
            i <= nb,
            mt@.len() == i,
            mf@.len() == i,
            forall|k: int| 0 <= k < i ==> !mt@[k] && !mf@[k],
        decreases nb - i,
    {
        mt.push(false);
        mf.push(false);
        i = i + 1;
    }
    if nb == 0 {
        return (mt, mf);
    }
    mf.set(0, true);
    let ghost mut set_t: Set<int> = Set::empty();
    let ghost mut set_f: Set<int> = set![0];
    let ghost mut wit: Map<(int, bool), Seq<int>> = map![(0, false) => seq![0]];
    let mut work: Vec<(usize, bool)> = Vec::new();
    work.push((0, false));
    proof {
        lemma_int_range(0, nb as int);
        assert(is_entry_path(*body, seq![0int]));
        assert(path_reaches(*body, l, seq![0int], 0, false));
        assert(work@[0] == (0usize, false));
    }
    while work.len() > 0
        invariant
            body.wf(),
            nb == body.num_blocks(),
            nb > 0,
            mt@.len() == nb,
            mf@.len() == nb,
            mf@[0],
            set_int_range(0, nb as int).finite(),
            set_int_range(0, nb as int).len() == nb,
            set_t.subset_of(set_int_range(0, nb as int)),
            set_f.subset_of(set_int_range(0, nb as int)),
            forall|b: int| 0 <= b < nb ==> (mt@[b] <==> set_t.contains(b)),
            forall|b: int| 0 <= b < nb ==> (mf@[b] <==> set_f.contains(b)),
            forall|k: int|
                0 <= k < work@.len() ==> (#[trigger] work@[k]).0 < nb && marked(
                    mt@,
                    mf@,
                    work@[k].0 as int,
                    work@[k].1,
                ),
            forall|b: int, s: bool|
                0 <= b < nb && #[trigger] marked(mt@, mf@, b, s) ==> wit.dom().contains((b, s))
                    && path_reaches(*body, l, wit[(b, s)], b, s),
            forall|b: int, s: bool, j: int|
                #![trigger marked(mt@, mf@, b, s), body.block(b).terminator.successors@[j]]
                0 <= b < nb && marked(mt@, mf@, b, s) && !work@.contains((b as usize, s)) && 0
                    <= j < body.block(b).terminator.successors@.len() ==> marked(
                    mt@,
                    mf@,
                    body.block(b).terminator.successors@[j] as int,
                    block_exit(*body, l, b, s),
                ),
        decreases 2 * ((nb - set_t.len()) + (nb - set_f.len())) + work@.len(),
    {
        proof {
            lemma_len_subset(set_t, set_int_range(0, nb as int));
            lemma_len_subset(set_f, set_int_range(0, nb as int));
        }
        let ghost m0 = 2 * ((nb - set_t.len()) + (nb - set_f.len())) + work@.len();
        let ghost old_work = work@;
        let u = work.pop().unwrap();
        let b = u.0;
        let s = u.1;
        proof {
            assert(old_work[old_work.len() - 1] == u);
            assert forall|x: (usize, bool)| old_work.contains(x) && x != u implies work@.contains(
                x,
            ) by {
                let k = choose|k: int| 0 <= k < old_work.len() && old_work[k] == x;
                assert(work@[k] == x);
            }
            assert(marked(mt@, mf@, b as int, s));
        }
        let out = exit_state(body, l, b, s);
        let succs = &body.basic_blocks[b].terminator.successors;
        proof {
            assert(body.block(b as int).wf(nb as int));
        }
        let mut j: usize = 0;
        while j < succs.len()
            invariant
                body.wf(),
                nb == body.num_blocks(),
                b < nb,
                nb > 0,
                body.block(b as int).wf(nb as int),
                succs == body.block(b as int).terminator.successors,
                out == block_exit(*body, l, b as int, s),
                j <= succs@.len(),
                mt@.len() == nb,
                mf@.len() == nb,
                mf@[0],
                marked(mt@, mf@, b as int, s),
                set_int_range(0, nb as int).finite(),
                set_int_range(0, nb as int).len() == nb,
                set_t.subset_of(set_int_range(0, nb as int)),
                set_f.subset_of(set_int_range(0, nb as int)),
                set_t.finite(),
                set_f.finite(),
                forall|c: int| 0 <= c < nb ==> (mt@[c] <==> set_t.contains(c)),
                forall|c: int| 0 <= c < nb ==> (mf@[c] <==> set_f.contains(c)),
                forall|k: int|
                    0 <= k < work@.len() ==> (#[trigger] work@[k]).0 < nb && marked(
                        mt@,
                        mf@,
                        work@[k].0 as int,
                        work@[k].1,
                    ),
                forall|c: int, t: bool|
                    0 <= c < nb && #[trigger] marked(mt@, mf@, c, t) ==> wit.dom().contains((c, t))
                        && path_reaches(*body, l, wit[(c, t)], c, t),
                forall|c: int, t: bool, k: int|
                    #![trigger marked(mt@, mf@, c, t), body.block(c).terminator.successors@[k]]
                    0 <= c < nb && marked(mt@, mf@, c, t) && !work@.contains((c as usize, t))
                        && !(c == b && t == s) && 0 <= k
                        < body.block(c).terminator.successors@.len() ==> marked(
                        mt@,
                        mf@,
                        body.block(c).terminator.successors@[k] as int,
                        block_exit(*body, l, c, t),
                    ),
                forall|k: int|
                    0 <= k < j ==> marked(mt@, mf@, #[trigger] succs@[k] as int, out),
                2 * ((nb - set_t.len()) + (nb - set_f.len())) + work@.len() < m0,
            decreases succs@.len() - j,
        {
            let c = succs[j];
            proof {
                assert(c < nb);
            }
            let already = if out { mt[c] } else { mf[c] };
            if !already {
                let ghost old_mt = mt@;
                let ghost old_mf = mf@;
                let ghost old_w = work@;
                proof {
                    assert(succs@.contains(c));
                    lemma_extend_path(*body, l, wit[(b as int, s)], b as int, s, c as int);
                    wit = wit.insert((c as int, out), wit[(b as int, s)].push(c as int));
                }
                proof {
                    assert(!(if out { set_t } else { set_f }).contains(c as int));
                }
                if out {
                    mt.set(c, true);
                    proof {
                        set_t = set_t.insert(c as int);
                    }
                } else {
                    mf.set(c, true);
                    proof {
                        set_f = set_f.insert(c as int);
                    }
                }
                work.push((c, out));
                proof {
                    assert forall|x: (usize, bool)| old_w.contains(x) implies work@.contains(x) by {
                        let k = choose|k: int| 0 <= k < old_w.len() && old_w[k] == x;
                        assert(work@[k] == x);
                    }
                    assert(work@[work@.len() - 1] == (c, out));
                    assert forall|d: int, t: bool| #[trigger]
                        marked(old_mt, old_mf, d, t) && 0 <= d < nb implies marked(
                        mt@,
                        mf@,
                        d,
                        t,
                    ) by {}
                    assert forall|d: int, t: bool|
                        0 <= d < nb && #[trigger] marked(mt@, mf@, d, t) implies wit.dom().contains(
                        (d, t),
                    ) && path_reaches(*body, l, wit[(d, t)], d, t) by {
                        if !(d == c && t == out) {
                            assert(marked(old_mt, old_mf, d, t));
                        }
                    }
                    assert forall|d: int, t: bool, k: int|
                        #![trigger marked(mt@, mf@, d, t), body.block(d).terminator.successors@[k]]
                        0 <= d < nb && marked(mt@, mf@, d, t) && !work@.contains((d as usize, t))
                            && !(d == b && t == s) && 0 <= k
                            < body.block(d).terminator.successors@.len() implies marked(
                        mt@,
                        mf@,
                        body.block(d).terminator.successors@[k] as int,
                        block_exit(*body, l, d, t),
                    ) by {
                        assert(!(d == c && t == out));
                        assert(marked(old_mt, old_mf, d, t));
                        assert(!old_w.contains((d as usize, t)));
                        let e = body.block(d).terminator.successors@[k] as int;
                        assert(body.block(d).wf(nb as int));
                        assert(0 <= e < nb);
                        assert(marked(old_mt, old_mf, e, block_exit(*body, l, d, t)));
                    }
                }
            }
            j = j + 1;
        }
        proof {
            lemma_len_subset(set_t, set_int_range(0, nb as int));
            lemma_len_subset(set_f, set_int_range(0, nb as int));
        }
    }
    proof {
        assert(closed(*body, l, mt@, mf@));
        assert forall|b: int|
            #![trigger mt@[b]]
            #![trigger mf@[b]]
            0 <= b < body.num_blocks() implies mt@[b] == entry_state_reachable(*body, l, b, true) && mf@[b] == entry_state_reachable(
            *body,
            l,
            b,
            false,
        ) by {
            if mt@[b] {
                assert(marked(mt@, mf@, b, true));
                assert(path_reaches(*body, l, wit[(b, true)], b, true));
            }
            if mf@[b] {
                assert(marked(mt@, mf@, b, false));
                assert(path_reaches(*body, l, wit[(b, false)], b, false));
            }
            if entry_state_reachable(*body, l, b, true) {
                let p = choose|p: Seq<int>| path_reaches(*body, l, p, b, true);
                lemma_paths_marked(*body, l, mt@, mf@, p);
                assert(mt@[b]);
            }
            if entry_state_reachable(*body, l, b, false) {
                let p = choose|p: Seq<int>| path_reaches(*body, l, p, b, false);
                lemma_paths_marked(*body, l, mt@, mf@, p);
                assert(mf@[b]);
            }
        }
    }
    (mt, mf)
}

/// The liveness record of local `l`: every statement after which `l` is live, and every call
/// that `l` is live across, in program order.
pub fn local_lifetime(body: &Body, l: usize) -> (r: Lifetime)
    requires
        body.wf(),
    ensures
        is_lifetime_of(*body, l, r),
{
    let (mt, mf) = entry_states(body, l);
    let mut lt = Lifetime::new(body.def_id);
    let nb = body.basic_blocks.len();
    let mut b: usize = 0;
    while b < nb
        invariant
            body.wf(),
            nb == body.num_blocks(),
            b <= nb,
            mt@.len() == nb,
            mf@.len() == nb,
            forall|c: int|
                0 <= c < nb ==> #[trigger] mt@[c] == entry_state_reachable(*body, l, c, true),
            forall|c: int|
                0 <= c < nb ==> #[trigger] mf@[c] == entry_state_reachable(*body, l, c, false),
            lt.body_id == body.def_id,
            lt.live_locs@ == live_locs_upto(*body, l, b as int),
            lt.live_span@ == spans_of(*body, lt.live_locs@),
        decreases nb - b,
    {
        let bb = &body.basic_blocks[b];
        let n = bb.statements.len();
        let from_t = mt[b];
        let from_f = mf[b];
        let mut st_t = true;
        let mut st_f = false;
        let ghost before = lt.live_locs@;
        let mut i: usize = 0;
        while i < n
            invariant
                body.wf(),
                nb == body.num_blocks(),
                b < nb,
                bb == body.block(b as int),
                n == bb.statements@.len(),
                i <= n,
                from_t == entry_state_reachable(*body, l, b as int, true),
                from_f == entry_state_reachable(*body, l, b as int, false),
                st_t == live_before(*body, l, b as int, i as int, true),
                st_f == live_before(*body, l, b as int, i as int, false),
                before == live_locs_upto(*body, l, b as int),
                lt.body_id == body.def_id,
                lt.live_locs@ == before + block_live_locs(*body, l, b as int, i as int),
                lt.live_span@ == spans_of(*body, lt.live_locs@),
            decreases n - i,
        {
            st_t = apply_statement_effect(&bb.statements[i].kind, l, st_t);
            st_f = apply_statement_effect(&bb.statements[i].kind, l, st_f);
            let loc = Location { block: b, statement_index: i };
            proof {
                assert(is_live_at(*body, l, loc) == ((from_t && st_t) || (from_f && st_f)));
            }
            if (from_t && st_t) || (from_f && st_f) {
                lt.add_live_loc(loc, clone_span(&bb.statements[i].span));
            }
            proof {
                assert(lt.live_locs@ =~= before + block_live_locs(
                    *body,
                    l,
                    b as int,
                    i + 1,
                ));
                assert(lt.live_span@ =~= spans_of(*body, lt.live_locs@));
            }
            i = i + 1;
        }
        let is_call = match &bb.terminator.kind {
            TerminatorKind::Call(_) => true,
            _ => false,
        };
        let loc = Location { block: b, statement_index: n };
        proof {
            assert(is_live_at(*body, l, loc) == (is_call && ((from_t && st_t) || (from_f
                && st_f))));
        }
        if is_call && ((from_t && st_t) || (from_f && st_f)) {
            lt.add_live_loc(loc, clone_span(&bb.terminator.span));
        }
        proof {
            assert(lt.live_locs@ =~= live_locs_upto(*body, l, b + 1));
            assert(lt.live_span@ =~= spans_of(*body, lt.live_locs@));
        }
        b = b + 1;
    }
    lt
}

/// A stored record as a value: the local, the function, the live locations and their spans.
pub type RecordView = (usize, u64, Seq<Location>, Seq<Span>);

pub open spec fn record_view(e: (usize, Lifetime)) -> RecordView {
    (e.0, e.1.body_id, e.1.live_locs@, e.1.live_span@)
}

pub open spec fn records_view(r: Seq<(usize, Lifetime)>) -> Seq<RecordView> {
    r.map_values(|e: (usize, Lifetime)| record_view(e))
}

/// The records of the locals below `n` that are live somewhere, by local index.
pub open spec fn records_upto(body: Body, n: int) -> Seq<RecordView>
    decreases n,
{
    if n <= 0 {
        Seq::empty()
    } else {
        let prev = records_upto(body, n - 1);
        let locs = live_locations(body, (n - 1) as usize);
        if locs.len() > 0 {
            prev.push(((n - 1) as usize, body.def_id, locs, spans_of(body, locs)))
        } else {
            prev
        }
    }
}

/// `r` holds one record for each local of `body` that is live somewhere, and no other.
pub open spec fn is_lifetimes_of(body: Body, r: Seq<(usize, Lifetime)>) -> bool {
    records_view(r) == records_upto(body, body.local_decls@.len() as int)
}

/// Runs the liveness engine on one function body and adds its records to the store.
pub fn analyze_lifetimes(body: &Body, lifetimes: &mut Lifetimes)
    requires
        body.wf(),
    ensures
        final(lifetimes).entries().len() == old(lifetimes).entries().len() + 1,
        final(lifetimes).entries().drop_last() == old(lifetimes).entries(),
        final(lifetimes).entries().last().0 == body.def_id,
        is_lifetimes_of(*body, final(lifetimes).entries().last().1),
{
    let r = body_lifetimes(body);
    lifetimes.body_local_lifetimes.push((body.def_id, r));
    proof {
        assert(lifetimes.entries().drop_last() =~= old(lifetimes).entries());
    }
}

/// The liveness records of the locals of one function body that are live somewhere, by local
/// index; a record is created only for a local observed live.
pub fn body_lifetimes(body: &Body) -> (r: Vec<(usize, Lifetime)>)
    requires
        body.wf(),
    ensures
        is_lifetimes_of(*body, r@),
{
    let mut r: Vec<(usize, Lifetime)> = Vec::new();
    let mut l: usize = 0;
    while l < body.local_decls.len()
        invariant
            body.wf(),
            l <= body.local_decls@.len(),
            records_view(r@) == records_upto(*body, l as int),
        decreases body.local_decls@.len() - l,
    {
        let lt = local_lifetime(body, l);
        let ghost before = r@;
        if lt.live_locs.len() > 0 {
            r.push((l, lt));
        }
        proof {
            assert(records_view(r@) =~= records_upto(*body, l + 1));
        }
        l = l + 1;
    }
    r
}

/// Finds the record of local `l` among the records of one body.
pub fn find_record(records: &Vec<(usize, Lifetime)>, l: usize) -> (r: Option<usize>)
    ensures
        match r {
            Some(i) => i < records@.len() && records@[i as int].0 == l,
            None => forall|i: int| 0 <= i < records@.len() ==> (#[trigger] records@[i]).0 != l,
        },
{
    let mut i: usize = 0;
    while i < records.len()
        invariant
            i <= records@.len(),
            forall|k: int| 0 <= k < i ==> (#[trigger] records@[k]).0 != l,
        decreases records@.len() - i,
    {
        if records[i].0 == l {
            return Some(i);
        }
        i = i + 1;
    }
    None
}

// ---------------------------------------------------------------------------------------------
// Laws
proof fn lemma_block_live_locs_contains(body: Body, l: usize, b: int, i: int, loc: Location)
    requires
        0 <= b,
        b <= usize::MAX,
    ensures
        block_live_locs(body, l, b, i).contains(loc) <==> (loc.block as int == b
            && loc.statement_index < i && is_live_at(body, l, loc)),
    decreases i,
{
    if i > 0 {
        lemma_block_live_locs_contains(body, l, b, i - 1, loc);
        let prev = block_live_locs(body, l, b, i - 1);
        let here = Location { block: b as usize, statement_index: (i - 1) as usize };
        if is_live_at(body, l, here) {
            assert(prev.push(here)[prev.len() as int] == here);
            if prev.push(here).contains(loc) && loc != here {
                let k = choose|k: int| 0 <= k < prev.len() + 1 && prev.push(here)[k] == loc;
                assert(prev[k] == loc);
            }
            if prev.contains(loc) {
                let k = choose|k: int| 0 <= k < prev.len() && prev[k] == loc;
                assert(prev.push(here)[k] == loc);
            }
        }
    }
}

proof fn lemma_live_locs_upto_contains(body: Body, l: usize, nb: int, loc: Location)
    requires
        body.wf(),
        nb <= body.num_blocks(),
    ensures
        live_locs_upto(body, l, nb).contains(loc) <==> (loc.block < nb && is_live_at(
            body,
            l,
            loc,
        )),
    decreases nb,
{
    if nb > 0 {
        lemma_live_locs_upto_contains(body, l, nb - 1, loc);
        let n = body.block(nb - 1).statements@.len() + 1int;
        lemma_block_live_locs_contains(body, l, nb - 1, n, loc);
        let a = live_locs_upto(body, l, nb - 1);
        let c = block_live_locs(body, l, nb - 1, n);
        if (a + c).contains(loc) {
            let k = choose|k: int| 0 <= k < (a + c).len() && (a + c)[k] == loc;
            if k < a.len() {
                assert(a[k] == loc);
            } else {
                assert(c[k - a.len()] == loc);
            }
        }
        if a.contains(loc) {
            let k = choose|k: int| 0 <= k < a.len() && a[k] == loc;
            assert((a + c)[k] == loc);
        }
        if c.contains(loc) {
            let k = choose|k: int| 0 <= k < c.len() && c[k] == loc;
            assert((a + c)[a.len() + k] == loc);
        }
    }
}

/// A location belongs to the liveness record of `l` exactly when some path from the function's
/// entry reaches the location's block with `l` in a state that leaves it live after the
/// location's statement, or across the location's call: forward-reachable from an acquisition
/// with no release, drop or move-out in between on that path.
pub proof fn lemma_live_iff_path(body: Body, l: usize, loc: Location)
    requires
        body.wf(),
    ensures
        live_locations(body, l).contains(loc) <==> (loc.block < body.num_blocks() && exists|
            p: Seq<int>,
        |
            is_entry_path(body, p) && p.last() == loc.block as int && #[trigger] witness_at(
                body,
                l,
                loc,
                run_path(body, l, p),
            )),
{
    lemma_live_locs_upto_contains(body, l, body.num_blocks(), loc);
    let b = loc.block as int;
    if is_live_at(body, l, loc) {
        let s = if entry_state_reachable(body, l, b, true) && witness_at(body, l, loc, true) {
            true
        } else {
            false
        };
        let p = choose|p: Seq<int>| path_reaches(body, l, p, b, s);
        assert(witness_at(body, l, loc, run_path(body, l, p)));
    }
    if loc.block < body.num_blocks() && exists|p: Seq<int>|
        is_entry_path(body, p) && p.last() == loc.block as int && #[trigger] witness_at(
            body,
            l,
            loc,
            run_path(body, l, p),
        ) {
        let p = choose|p: Seq<int>|
            is_entry_path(body, p) && p.last() == loc.block as int && #[trigger] witness_at(
                body,
                l,
                loc,
                run_path(body, l, p),
            );
        assert(path_reaches(body, l, p, b, run_path(body, l, p)));
    }
}

/// Every location of a liveness record comes with its span.
pub proof fn lemma_location_has_span(body: Body, l: usize, lt: Lifetime, k: int)
    requires
        is_lifetime_of(body, l, lt),
        0 <= k < lt.live_locs@.len(),
    ensures
        lt.live_span@.len() == lt.live_locs@.len(),
        lt.live_span@.contains(body.span_at(lt.live_locs@[k])),
{
    assert(lt.live_span@[k] == body.span_at(lt.live_locs@[k]));
}

/// Running the liveness engine twice on the same body gives the same records.
pub proof fn lemma_lifetimes_deterministic(
    body: Body,
    r1: Seq<(usize, Lifetime)>,
    r2: Seq<(usize, Lifetime)>,
)
    requires
        is_lifetimes_of(body, r1),
        is_lifetimes_of(body, r2),
    ensures
        records_view(r1) == records_view(r2),
{
}

proof fn lemma_records_upto(body: Body, n: int)
    requires
        0 <= n <= usize::MAX,
    ensures
        forall|i: int|
            0 <= i < records_upto(body, n).len() ==> {
                let e = #[trigger] records_upto(body, n)[i];
                &&& e.0 < n
                &&& e.1 == body.def_id
                &&& e.2 == live_locations(body, e.0)
                &&& e.2.len() > 0
                &&& e.3 == spans_of(body, e.2)
            },
        forall|l: usize|
            l < n ==> (live_locations(body, l).len() > 0 <==> exists|i: int|
                0 <= i < records_upto(body, n).len() && (#[trigger] records_upto(body, n)[i]).0
                    == l),
    decreases n,
{
    if n > 0 {
        lemma_records_upto(body, n - 1);
        let prev = records_upto(body, n - 1);
        let cur = records_upto(body, n);
        assert forall|i: int| 0 <= i < prev.len() implies #[trigger] cur[i] == prev[i] by {}
        assert forall|l: usize|
            l < n implies (live_locations(body, l).len() > 0 <==> exists|i: int|
                0 <= i < cur.len() && (#[trigger] cur[i]).0 == l) by {
            if l < n - 1 {
                if live_locations(body, l).len() > 0 {
                    let i = choose|i: int| 0 <= i < prev.len() && (#[trigger] prev[i]).0 == l;
                    assert(cur[i] == prev[i]);
                }
                if exists|i: int| 0 <= i < cur.len() && (#[trigger] cur[i]).0 == l {
                    let i = choose|i: int| 0 <= i < cur.len() && (#[trigger] cur[i]).0 == l;
                    if i < prev.len() {
                        assert(cur[i] == prev[i]);
                    }
                }
            } else {
                if live_locations(body, l).len() > 0 {
                    assert(cur[prev.len() as int].0 == l);
                }
                if exists|i: int| 0 <= i < cur.len() && (#[trigger] cur[i]).0 == l {
                    let i = choose|i: int| 0 <= i < cur.len() && (#[trigger] cur[i]).0 == l;
                    if i < prev.len() {
                        assert(cur[i] == prev[i]);
                    }
                }
            }
        }
    }
}

/// Every stored record is the record of its local, and holds at least one location.
pub proof fn lemma_records_nonempty(body: Body, r: Seq<(usize, Lifetime)>, i: int)
    requires
        body.wf(),
        is_lifetimes_of(body, r),
        0 <= i < r.len(),
    ensures
        r[i].1.live_locs@.len() > 0,
        is_lifetime_of(body, r[i].0, r[i].1),
{
    lemma_records_upto(body, body.local_decls@.len() as int);
    assert(records_view(r)[i] == record_view(r[i]));
}

/// A local of `body` has a stored record exactly when it is live somewhere.
pub proof fn lemma_record_iff_live(body: Body, r: Seq<(usize, Lifetime)>, l: usize)
    requires
        body.wf(),
        is_lifetimes_of(body, r),
        l < body.local_decls@.len(),
    ensures
        (exists|i: int| 0 <= i < r.len() && (#[trigger] r[i]).0 == l) <==> live_locations(
            body,
            l,
        ).len() > 0,
{
    lemma_records_upto(body, body.local_decls@.len() as int);
    let rv = records_view(r);
    if exists|i: int| 0 <= i < r.len() && (#[trigger] r[i]).0 == l {
        let i = choose|i: int| 0 <= i < r.len() && (#[trigger] r[i]).0 == l;
        assert(rv[i].0 == l);
    }
    if live_locations(body, l).len() > 0 {
        let i = choose|i: int| 0 <= i < rv.len() && (#[trigger] rv[i]).0 == l;
        assert(r[i].0 == rv[i].0);
    }
}

/// A statement that acquires `l`, reached by some path from the entry, belongs to the live range
/// of `l`: the highlight area of a guard acquired on a reachable path is not empty.
pub proof fn lemma_acquisition_is_live(body: Body, l: usize, p: Seq<int>, i: int)
    requires
        body.wf(),
        is_entry_path(body, p),
        0 <= i < body.block(p.last()).statements@.len(),
        body.block(p.last()).statements@[i].kind == StatementKind::StorageLive(l),
    ensures
        live_locations(body, l).contains(
            Location { block: p.last() as usize, statement_index: i as usize },
        ),
{
    let b = p.last();
    let loc = Location { block: b as usize, statement_index: i as usize };
    let s = run_path(body, l, p);
    assert(p[p.len() - 1] == b);
    assert(body.block(b).wf(body.num_blocks()));
    assert(path_reaches(body, l, p, b, s));
    assert(loc.block as int == b && loc.statement_index as int == i);
    assert(live_before(body, l, b, i + 1, s));
    assert(witness_at(body, l, loc, s));
    lemma_live_locs_upto_contains(body, l, body.num_blocks(), loc);
}

/// Two locals whose live ranges share no location, in a body whose spans tell their locations
/// apart, have highlight areas that share no span.
pub proof fn lemma_disjoint_areas(body: Body, g1: usize, g2: usize)
    requires
        forall|a: Location|
            #[trigger] live_locations(body, g1).contains(a) ==> !live_locations(
                body,
                g2,
            ).contains(a),
        forall|a: Location, c: Location|
            #[trigger] live_locations(body, g1).contains(a) && #[trigger] live_locations(
                body,
                g2,
            ).contains(c) && body.span_at(a) == body.span_at(c) ==> a == c,
    ensures
        forall|sp: Span|
            #[trigger] spans_of(body, live_locations(body, g1)).contains(sp) ==> !spans_of(
                body,
                live_locations(body, g2),
            ).contains(sp),
{
    let l1 = live_locations(body, g1);
    let l2 = live_locations(body, g2);
    assert forall|sp: Span| #[trigger] spans_of(body, l1).contains(sp) implies !spans_of(
        body,
        l2,
    ).contains(sp) by {
        if spans_of(body, l2).contains(sp) {
            let i = choose|i: int| 0 <= i < spans_of(body, l1).len() && spans_of(body, l1)[i] == sp;
            let j = choose|j: int| 0 <= j < spans_of(body, l2).len() && spans_of(body, l2)[j] == sp;
            assert(l1.contains(l1[i]));
            assert(l2.contains(l2[j]));
            assert(body.span_at(l1[i]) == body.span_at(l2[j]));
        }
    }
}

} // verus!
