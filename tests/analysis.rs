use deadlock_lsp::analysis::call_graph::{analyze_callgraph, CallGraph, CallSite};
use deadlock_lsp::analysis::cfg::{
    BasicBlock, Body, Callee, LocalDecl, Location, Rvalue, Span, Statement, StatementKind,
    Terminator, TerminatorKind,
};
use deadlock_lsp::analysis::lifetime::{
    analyze_lifetimes, body_lifetimes, find_record, local_lifetime, Lifetime, Lifetimes,
};
use deadlock_lsp::analysis::{
    analyze, callchains_to_spans, classify_call, filter_body_locals, find_in_lifetime,
    lifetime_to_highlight_area, AnalysisResult, CriticalSectionCall,
};

const SENDER: &str = "std::sync::mpsc::Sender<i32>";
const RECEIVER: &str = "std::sync::mpsc::Receiver<i32>";
const CONDVAR: &str = "std::sync::Condvar";

fn sp(line: u32) -> Span {
    ("src/main.rs".to_string(), line, 5, line, 20)
}

fn st(kind: StatementKind, line: u32) -> Statement {
    Statement { kind, span: sp(line) }
}

fn other(line: u32, successors: Vec<usize>) -> Terminator {
    Terminator { kind: TerminatorKind::Other, span: sp(line), successors }
}

fn drop_of(local: usize, line: u32, successors: Vec<usize>) -> Terminator {
    Terminator { kind: TerminatorKind::Drop(local), span: sp(line), successors }
}

fn call(def_id: u64, name: &str, recv: Option<&str>, line: u32, successors: Vec<usize>) -> Terminator {
    Terminator {
        kind: TerminatorKind::Call(Some(Callee {
            def_id,
            name: name.to_string(),
            receiver_ty: recv.map(|r| r.to_string()),
        })),
        span: sp(line),
        successors,
    }
}

fn block(statements: Vec<Statement>, terminator: Terminator) -> BasicBlock {
    BasicBlock { statements, terminator }
}

fn body(def_id: u64, guards: &[bool], basic_blocks: Vec<BasicBlock>) -> Body {
    Body {
        def_id,
        local_decls: guards.iter().map(|g| LocalDecl { is_guard: *g }).collect(),
        basic_blocks,
    }
}

fn loc(block: usize, statement_index: usize) -> Location {
    Location { block, statement_index }
}

/// Guard local 1 is acquired, a send is made while it is live, then it is dropped.
fn send_under_guard() -> Body {
    body(
        1,
        &[false, true, false],
        vec![
            block(
                vec![
                    st(StatementKind::StorageLive(1), 2),
                    st(StatementKind::Assign(1, Rvalue::Other), 3),
                ],
                call(100, "send", Some(SENDER), 4, vec![1]),
            ),
            block(vec![], drop_of(1, 5, vec![2])),
            block(vec![st(StatementKind::StorageDead(1), 6)], other(7, vec![])),
        ],
    )
}

fn chain_lines(r: &AnalysisResult, k: usize) -> Vec<u32> {
    r.calls[k].callchains.iter().map(|s| s.1).collect()
}

fn area_lines(r: &AnalysisResult, k: usize) -> Vec<u32> {
    r.critical_sections[k].ranges.iter().map(|s| s.1).collect()
}

#[test]
fn send_while_guard_live_is_one_finding() {
    let r = analyze(&vec![send_under_guard()]);
    assert_eq!(r.calls.len(), 1);
    assert_eq!(r.calls[0].ty, CriticalSectionCall::ChSend);
    assert_eq!(r.calls[0].callchains, vec![sp(4)]);
    assert_eq!(r.critical_sections.len(), 1);
    assert_eq!(area_lines(&r, 0), vec![2, 3, 4]);
}

#[test]
fn wait_in_called_helper_gives_chain_of_two() {
    let f = body(
        1,
        &[false, true],
        vec![
            block(vec![st(StatementKind::StorageLive(1), 2)], call(2, "helper", None, 3, vec![1])),
            block(vec![], drop_of(1, 4, vec![2])),
            block(vec![], other(5, vec![])),
        ],
    );
    let h = body(
        2,
        &[false],
        vec![
            block(vec![], call(101, "wait", Some(CONDVAR), 20, vec![1])),
            block(vec![], other(21, vec![])),
        ],
    );
    let r = analyze(&vec![f, h]);
    assert_eq!(r.calls.len(), 1);
    assert_eq!(r.calls[0].ty, CriticalSectionCall::CondVarWait);
    assert_eq!(r.calls[0].callchains, vec![sp(3), sp(20)]);
}

#[test]
fn guard_dropped_before_any_call_has_no_finding() {
    let f = body(
        1,
        &[false, true],
        vec![
            block(
                vec![
                    st(StatementKind::StorageLive(1), 2),
                    st(StatementKind::Assign(1, Rvalue::Other), 3),
                ],
                drop_of(1, 4, vec![1]),
            ),
            block(
                vec![st(StatementKind::StorageDead(1), 5)],
                call(100, "send", Some(SENDER), 6, vec![2]),
            ),
            block(vec![], other(7, vec![])),
        ],
    );
    let r = analyze(&vec![f]);
    assert_eq!(r.calls.len(), 0);
    assert_eq!(r.critical_sections.len(), 1);
    assert_eq!(r.critical_sections[0].ranges, vec![sp(2), sp(3)]);
}

#[test]
fn two_guards_have_disjoint_areas_and_own_findings() {
    let f = body(
        1,
        &[false, true, true],
        vec![
            block(
                vec![st(StatementKind::StorageLive(1), 2)],
                call(100, "send", Some(SENDER), 3, vec![1]),
            ),
            block(vec![], drop_of(1, 4, vec![2])),
            block(
                vec![st(StatementKind::StorageLive(2), 5)],
                call(102, "recv", Some(RECEIVER), 6, vec![3]),
            ),
            block(vec![], drop_of(2, 7, vec![4])),
            block(vec![], other(8, vec![])),
        ],
    );
    let r = analyze(&vec![f]);
    assert_eq!(r.critical_sections.len(), 2);
    assert_eq!(area_lines(&r, 0), vec![2, 3]);
    assert_eq!(area_lines(&r, 1), vec![5, 6]);
    assert_eq!(r.calls.len(), 2);
    assert_eq!(r.calls[0].ty, CriticalSectionCall::ChSend);
    assert_eq!(chain_lines(&r, 0), vec![3]);
    assert_eq!(r.calls[1].ty, CriticalSectionCall::ChRecv);
    assert_eq!(chain_lines(&r, 1), vec![6]);
}

#[test]
fn liveness_reaches_fixpoint_around_a_loop() {
    // block 1 is entered first with local 1 dead, then again through the back edge from
    // block 2 with it live.
    let f = body(
        1,
        &[false, false],
        vec![
            block(vec![], other(9, vec![1])),
            block(
                vec![st(StatementKind::Other, 10)],
                call(7, "step", None, 11, vec![2, 3]),
            ),
            block(vec![st(StatementKind::StorageLive(1), 12)], other(13, vec![1])),
            block(vec![], other(14, vec![])),
        ],
    );
    let lt = local_lifetime(&f, 1);
    assert_eq!(lt.body_id, 1);
    assert_eq!(lt.live_locs, vec![loc(1, 0), loc(1, 1), loc(2, 0)]);
    assert_eq!(lt.live_span, vec![sp(10), sp(11), sp(12)]);
}

#[test]
fn unreachable_block_records_nothing() {
    let f = body(
        1,
        &[false, true],
        vec![
            block(vec![], other(2, vec![])),
            block(vec![st(StatementKind::StorageLive(1), 3)], other(4, vec![0])),
        ],
    );
    let lts = body_lifetimes(&f);
    assert!(lts.is_empty());
    let r = analyze(&vec![f]);
    assert!(r.critical_sections.is_empty());
    assert!(r.calls.is_empty());
}

#[test]
fn move_out_ends_liveness() {
    let f = body(
        1,
        &[false, true, false],
        vec![block(
            vec![
                st(StatementKind::StorageLive(1), 2),
                st(StatementKind::Assign(2, Rvalue::Move(1)), 3),
                st(StatementKind::Other, 4),
            ],
            call(100, "send", Some(SENDER), 5, vec![]),
        )],
    );
    let lt = local_lifetime(&f, 1);
    assert_eq!(lt.live_locs, vec![loc(0, 0)]);
    let r = analyze(&vec![f]);
    assert!(r.calls.is_empty());
}

#[test]
fn liveness_joins_over_branches() {
    // Local 1 is acquired on one branch only; it is live where the branches meet.
    let f = body(
        1,
        &[false, false],
        vec![
            block(vec![], other(1, vec![1, 2])),
            block(vec![st(StatementKind::StorageLive(1), 2)], other(3, vec![3])),
            block(vec![st(StatementKind::Other, 4)], other(5, vec![3])),
            block(vec![st(StatementKind::Other, 6)], other(7, vec![])),
        ],
    );
    let lt = local_lifetime(&f, 1);
    assert_eq!(lt.live_locs, vec![loc(1, 0), loc(3, 0)]);
    assert_eq!(lt.live_span, vec![sp(2), sp(6)]);
}

#[test]
fn every_live_location_has_a_span() {
    let f = send_under_guard();
    let mut store = Lifetimes::new();
    analyze_lifetimes(&f, &mut store);
    assert_eq!(store.body_local_lifetimes.len(), 1);
    assert_eq!(store.body_local_lifetimes[0].0, 1);
    assert_eq!(store.body_local_lifetimes[0].1.len(), 1);
    for (l, lt) in &store.body_local_lifetimes[0].1 {
        assert_eq!(*l, 1);
        assert!(!lt.live_locs.is_empty());
        assert_eq!(lt.live_locs.len(), lt.live_span.len());
    }
    let lt = local_lifetime(&f, 1);
    assert_eq!(lt.live_span, vec![sp(2), sp(3), sp(4)]);
}

#[test]
fn analysis_is_deterministic() {
    let bodies = vec![send_under_guard()];
    let r1 = analyze(&bodies);
    let r2 = analyze(&bodies);
    assert_eq!(format!("{:?}", r1), format!("{:?}", r2));
    let mut g1 = CallGraph::new();
    let mut g2 = CallGraph::new();
    analyze_callgraph(&bodies[0], &mut g1);
    analyze_callgraph(&bodies[0], &mut g2);
    assert_eq!(g1.callsites.len(), 1);
    assert_eq!(g1.callsites[0].1.len(), g2.callsites[0].1.len());
    assert_eq!(g1.callsites[0].1[0].location, g2.callsites[0].1[0].location);
}

#[test]
fn search_stops_after_one_call_level() {
    // f holds a guard and calls g; g calls h; h sends. Only chains of one or two are found.
    let f = body(
        1,
        &[false, true],
        vec![
            block(vec![st(StatementKind::StorageLive(1), 2)], call(2, "g", None, 3, vec![1])),
            block(vec![], drop_of(1, 4, vec![])),
        ],
    );
    let g = body(2, &[false], vec![block(vec![], call(3, "h", None, 10, vec![]))]);
    let h = body(3, &[false], vec![block(vec![], call(100, "send", Some(SENDER), 20, vec![]))]);
    let r = analyze(&vec![f, g, h]);
    assert!(r.calls.is_empty());
    for c in &r.calls {
        assert!(c.callchains.len() == 1 || c.callchains.len() == 2);
    }
}

#[test]
fn call_graph_skips_unresolved_calls() {
    let f = body(
        5,
        &[false],
        vec![
            block(
                vec![st(StatementKind::Other, 1)],
                Terminator { kind: TerminatorKind::Call(None), span: sp(2), successors: vec![1] },
            ),
            block(vec![], call(9, "known", Some("Foo"), 3, vec![])),
        ],
    );
    let mut g = CallGraph::new();
    analyze_callgraph(&f, &mut g);
    assert_eq!(g.callsites.len(), 1);
    assert_eq!(g.callsites[0].0, 5);
    let sites = g.get(5).unwrap();
    assert_eq!(sites.len(), 1);
    assert_eq!(sites[0].caller, 5);
    assert_eq!(sites[0].callee, 9);
    assert_eq!(sites[0].callee_name, "known");
    assert_eq!(sites[0].receiver_ty, Some("Foo".to_string()));
    assert_eq!(sites[0].location, loc(1, 0));
    assert_eq!(sites[0].span, sp(3));
    assert!(g.get(6).is_none());
}

fn site(name: &str, recv: Option<&str>) -> CallSite {
    CallSite {
        caller: 1,
        location: loc(0, 0),
        callee: 2,
        callee_name: name.to_string(),
        receiver_ty: recv.map(|r| r.to_string()),
        span: sp(1),
    }
}

#[test]
fn classifier_matches_receiver_type_and_method() {
    assert_eq!(classify_call(&site("send", Some(SENDER))), Some(CriticalSectionCall::ChSend));
    assert_eq!(classify_call(&site("recv", Some(RECEIVER))), Some(CriticalSectionCall::ChRecv));
    assert_eq!(
        classify_call(&site("wait", Some("&std::sync::Condvar"))),
        Some(CriticalSectionCall::CondVarWait)
    );
    assert_eq!(classify_call(&site("send", Some(RECEIVER))), None);
    assert_eq!(classify_call(&site("send", Some("std::sync::mpsc::SyncSender<i32>"))), None);
    assert_eq!(classify_call(&site("recv", Some("my::Channel"))), None);
    assert_eq!(classify_call(&site("send", None)), None);
    assert_eq!(classify_call(&site("wait_timeout", Some(CONDVAR))), None);
}

#[test]
fn find_in_lifetime_with_missing_callee_body() {
    let f = send_under_guard();
    let lt = local_lifetime(&f, 1);
    let g = CallGraph::new();
    let mut calls = Vec::new();
    find_in_lifetime(&lt, 1, &g, &mut calls, Vec::new());
    assert!(calls.is_empty());
    let mut g = CallGraph::new();
    analyze_callgraph(&f, &mut g);
    find_in_lifetime(&lt, 1, &g, &mut calls, Vec::new());
    assert_eq!(calls.len(), 1);
    assert_eq!(calls[0].callchains, vec![sp(4)]);
}

#[test]
fn helpers_convert_records_and_chains() {
    let f = send_under_guard();
    assert_eq!(filter_body_locals(&f), vec![1]);
    let lt = local_lifetime(&f, 1);
    assert_eq!(lifetime_to_highlight_area(&lt).ranges, vec![sp(2), sp(3), sp(4)]);
    let chain = vec![site("a", None), site("send", Some(SENDER))];
    assert_eq!(callchains_to_spans(&chain), vec![sp(1), sp(1)]);
    assert!(callchains_to_spans(&Vec::new()).is_empty());
}

#[test]
fn empty_input_gives_empty_result() {
    let r = analyze(&Vec::new());
    assert!(r.calls.is_empty());
    assert!(r.critical_sections.is_empty());
    let f = body(1, &[true], vec![]);
    let r = analyze(&vec![f]);
    assert!(r.calls.is_empty());
    assert!(r.critical_sections.is_empty());
}

#[test]
fn lifetime_records_locations_in_order() {
    let mut lt = Lifetime::new(4);
    assert_eq!(lt.body_id, 4);
    assert!(lt.live_locs.is_empty());
    lt.add_live_loc(loc(0, 1), sp(1));
    lt.add_live_loc(loc(2, 0), sp(2));
    assert_eq!(lt.live_locs, vec![loc(0, 1), loc(2, 0)]);
    assert_eq!(lt.live_span, vec![sp(1), sp(2)]);
}

#[test]
fn never_live_local_has_no_record() {
    let f = body(1, &[false], vec![block(vec![], other(1, vec![]))]);
    let mut store = Lifetimes::new();
    analyze_lifetimes(&f, &mut store);
    assert_eq!(store.body_local_lifetimes.len(), 1);
    assert!(store.body_local_lifetimes[0].1.is_empty());
}

#[test]
fn records_only_for_live_locals_in_index_order() {
    let f = body(
        3,
        &[true, false, true, false],
        vec![block(
            vec![st(StatementKind::StorageLive(2), 1), st(StatementKind::StorageLive(0), 2)],
            other(3, vec![]),
        )],
    );
    let recs = body_lifetimes(&f);
    let locals: Vec<usize> = recs.iter().map(|(l, _)| *l).collect();
    assert_eq!(locals, vec![0, 2]);
    assert_eq!(recs[0].1.live_locs, vec![loc(0, 1)]);
    assert_eq!(recs[1].1.live_locs, vec![loc(0, 0), loc(0, 1)]);
    assert_eq!(recs[1].1.body_id, 3);
    assert_eq!(find_record(&recs, 2), Some(1));
    assert_eq!(find_record(&recs, 1), None);
}

#[test]
fn guard_without_record_gives_nothing() {
    // Guard 1 is declared but never acquired; guard 2 is live across a send.
    let f = body(
        1,
        &[false, true, true],
        vec![block(
            vec![st(StatementKind::StorageLive(2), 2)],
            call(100, "send", Some(SENDER), 3, vec![]),
        )],
    );
    let r = analyze(&vec![f]);
    assert_eq!(r.critical_sections.len(), 1);
    assert_eq!(area_lines(&r, 0), vec![2, 3]);
    assert_eq!(r.calls.len(), 1);
    assert_eq!(chain_lines(&r, 0), vec![3]);
}

#[test]
fn empty_receiver_pattern_and_unicode_types() {
    assert_eq!(
        classify_call(&site("send", Some("é::std::sync::mpsc::Sender<ü>"))),
        Some(CriticalSectionCall::ChSend)
    );
    assert_eq!(classify_call(&site("send", Some(""))), None);
    assert_eq!(classify_call(&site("send", Some("std::sync::mpsc::Sende"))), None);
}
