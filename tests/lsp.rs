use deadlock_lsp::lsp::global_ctxt::{
    areas_ok, calls_ok, raw_highlight_to_doc_highlights, suspicious_calls_to_diagnostics, DiagnosticRelatedInformation,
    DiagnosticSeverity, DocumentHighlightKind, GlobalCtxt, Position,
};
use deadlock_lsp::lsp::lockbud_ty::{AnalysisResult, HighlightArea, Suspicious, SuspiciousCall};

fn two_areas() -> Vec<HighlightArea> {
    vec![
        HighlightArea {
            triggers: vec![("file1.rs".to_string(), 1, 2, 3, 4)],
            ranges: vec![("file1.rs".to_string(), 5, 6, 7, 8)],
        },
        HighlightArea {
            triggers: vec![("file2.rs".to_string(), 1, 2, 3, 4)],
            ranges: vec![("file2.rs".to_string(), 5, 6, 7, 8)],
        },
    ]
}

#[test]
fn test_global_ctx_init() {
    let ctx = GlobalCtxt::new();
    assert!(ctx.result.is_none());
    assert!(ctx.file_highlights.is_empty());
}

#[test]
fn test_global_ctx_get_heightlights() {
    let result = AnalysisResult { calls: Vec::new(), critical_sections: two_areas() };

    let mut ctx = GlobalCtxt::new();
    ctx.update_from_analysis_result(result);

    let areas = ctx.get_highlights("file1.rs", &Position { line: 1, character: 3 });

    assert!(areas.is_some());
    assert_eq!(areas.unwrap().len(), 1);
}

#[test]
fn test_raw_highlight_to_doc_highlights_file_index() {
    let raw_highlights = two_areas();
    let res = raw_highlight_to_doc_highlights(&raw_highlights);

    assert_eq!(2, res.len());
    assert_eq!(1, res.get("file1.rs").unwrap().len());
    assert_eq!(1, res.get("file2.rs").unwrap().len());
}

#[test]
fn test_raw_highlight_to_doc_highlights_linecol() {
    let raw_highlights = two_areas();
    let res = raw_highlight_to_doc_highlights(&raw_highlights);

    let highlight_with_trigger = res.get("file1.rs").unwrap();
    let trigger = highlight_with_trigger.first().unwrap().triggers.first().unwrap();
    assert_eq!(trigger.0, "file1.rs");
    assert_eq!(trigger.1, 0);
    assert_eq!(trigger.2, 1);
    assert_eq!(trigger.3, 2);
    assert_eq!(trigger.4, 3);

    let area = highlight_with_trigger.first().unwrap().areas.first().unwrap();

    assert_eq!(area.range.start.line, 4);
    assert_eq!(area.range.start.character, 5);
    assert_eq!(area.range.end.line, 6);
    assert_eq!(area.range.end.character, 7);
}

#[test]
fn test_suspicious_calls_to_diagnostics_one_callchain() {
    let mut calls: Vec<SuspiciousCall> = Vec::new();
    calls.push(SuspiciousCall {
        callchains: vec![("/some/file1.rs".to_string(), 4, 5, 6, 7)],
        ty: Suspicious::DoubleLock,
    });
    calls.push(SuspiciousCall {
        callchains: vec![("/some/file1.rs".to_string(), 6, 7, 8, 9)],
        ty: Suspicious::ConflictLock,
    });
    let result = suspicious_calls_to_diagnostics(&calls);

    assert_eq!(result.len(), 1);
    assert_eq!(result.get("/some/file1.rs").unwrap().len(), 2);

    let diags = result.get("/some/file1.rs").unwrap();
    let first_diag = diags.first().unwrap();
    assert_eq!(first_diag.range.start.line, 3);
    assert_eq!(first_diag.range.start.character, 4);
    assert_eq!(first_diag.range.end.line, 5);
    assert_eq!(first_diag.range.end.character, 6);
}

#[test]
fn test_suspicious_calls_to_diagnostics() {
    let mut calls: Vec<SuspiciousCall> = Vec::new();
    calls.push(SuspiciousCall {
        callchains: vec![
            ("/some/file1.rs".to_string(), 1, 2, 3, 4),
            ("/some/file1.rs".to_string(), 4, 5, 6, 7),
        ],
        ty: Suspicious::DoubleLock,
    });
    calls.push(SuspiciousCall {
        callchains: vec![
            ("/some/file1.rs".to_string(), 2, 3, 4, 5),
            ("/some/file1.rs".to_string(), 6, 7, 8, 9),
        ],
        ty: Suspicious::ConflictLock,
    });
    let result = suspicious_calls_to_diagnostics(&calls);

    assert_eq!(result.len(), 1);
    assert_eq!(result.get("/some/file1.rs").unwrap().len(), 2);

    let diags = result.get("/some/file1.rs").unwrap();
    let first_diag = diags.first().unwrap();
    assert_eq!(first_diag.range.start.line, 3);
    assert_eq!(first_diag.range.start.character, 4);
    assert_eq!(first_diag.range.end.line, 5);
    assert_eq!(first_diag.range.end.character, 6);

    let first_related: &Vec<DiagnosticRelatedInformation> =
        first_diag.related_information.as_ref().unwrap();
    let first_loc = &first_related.first().unwrap().location;
    assert_eq!(first_loc.range.start.line, 0);
    assert_eq!(first_loc.range.start.character, 1);
    assert_eq!(first_loc.range.end.line, 2);
    assert_eq!(first_loc.range.end.character, 3);
}

#[test]
fn diagnostic_message_names_the_kind() {
    let calls = vec![
        SuspiciousCall {
            callchains: vec![("/a.rs".to_string(), 1, 1, 1, 9)],
            ty: Suspicious::ChSend,
        },
        SuspiciousCall {
            callchains: vec![
                ("/a.rs".to_string(), 2, 1, 2, 9),
                ("/b.rs".to_string(), 3, 1, 3, 9),
            ],
            ty: Suspicious::CondVarWait,
        },
    ];
    let result = suspicious_calls_to_diagnostics(&calls);
    assert_eq!(result.len(), 2);
    assert_eq!(result.keys, vec!["/a.rs".to_string(), "/b.rs".to_string()]);
    let a = &result.get("/a.rs").unwrap()[0];
    assert_eq!(a.message, "ChSend in critical section");
    assert_eq!(a.source, "rust-deadlock-detector");
    assert_eq!(a.severity, DiagnosticSeverity::Information);
    assert!(a.related_information.is_none());
    let b = &result.get("/b.rs").unwrap()[0];
    assert_eq!(b.message, "CondVarWait in critical section");
    let related = b.related_information.as_ref().unwrap();
    assert_eq!(related.len(), 1);
    assert_eq!(related[0].location.uri, "/a.rs");
    assert_eq!(related[0].location.range.start.line, 1);
    assert_eq!(related[0].message, "may contains blocking call in critical section");
    assert!(result.get("/c.rs").is_none());
}

#[test]
fn highlights_group_by_file_in_order() {
    let mut raw = two_areas();
    raw.push(HighlightArea {
        triggers: vec![("file1.rs".to_string(), 10, 1, 10, 30)],
        ranges: vec![("file1.rs".to_string(), 11, 1, 12, 2), ("file1.rs".to_string(), 13, 1, 13, 5)],
    });
    let res = raw_highlight_to_doc_highlights(&raw);
    assert_eq!(res.len(), 2);
    let f1 = res.get("file1.rs").unwrap();
    assert_eq!(f1.len(), 2);
    assert_eq!(f1[1].areas.len(), 2);
    assert_eq!(f1[1].areas[1].range.start.line, 12);
    assert_eq!(f1[1].areas[1].kind, Some(DocumentHighlightKind::Text));
    assert!(res.get("file3.rs").is_none());
}

#[test]
fn highlights_at_cursor() {
    let mut raw = two_areas();
    raw.push(HighlightArea {
        triggers: vec![("file1.rs".to_string(), 10, 1, 10, 30)],
        ranges: vec![("file1.rs".to_string(), 11, 1, 12, 2), ("file1.rs".to_string(), 13, 1, 13, 5)],
    });
    let mut ctx = GlobalCtxt::new();
    ctx.update_from_analysis_result(AnalysisResult { calls: Vec::new(), critical_sections: raw });
    assert!(ctx.result.is_some());
    let second = ctx.get_highlights("file1.rs", &Position { line: 9, character: 4 }).unwrap();
    assert_eq!(second.len(), 2);
    assert_eq!(second[0].range.start.line, 10);
    assert!(ctx.get_highlights("file1.rs", &Position { line: 20, character: 0 }).is_none());
    assert!(ctx.get_highlights("nowhere.rs", &Position { line: 1, character: 3 }).is_none());
    assert!(ctx.get_diagnoistics().unwrap().is_empty());
    assert!(GlobalCtxt::new().get_diagnoistics().is_none());
}

#[test]
fn well_formedness_checks() {
    assert!(areas_ok(&two_areas()));
    assert!(!areas_ok(&vec![HighlightArea { triggers: vec![], ranges: vec![] }]));
    assert!(!areas_ok(&vec![HighlightArea {
        triggers: vec![("f.rs".to_string(), 0, 1, 1, 1)],
        ranges: vec![("f.rs".to_string(), 1, 1, 1, 1)],
    }]));
    let good = SuspiciousCall { callchains: vec![("f.rs".to_string(), 1, 1, 1, 1)], ty: Suspicious::ChRecv };
    assert!(calls_ok(&vec![good]));
    assert!(!calls_ok(&vec![SuspiciousCall { callchains: vec![], ty: Suspicious::ChRecv }]));
    assert!(!calls_ok(&vec![SuspiciousCall {
        callchains: vec![("f.rs".to_string(), 1, 1, 1, 0)],
        ty: Suspicious::ChRecv,
    }]));
}
