//! The editor-side state: highlights indexed by file, and diagnostics for suspicious calls.
//! Line and column numbers become 0-based here, as the editor protocol counts them.
use vstd::prelude::*;
use crate::lsp::file_index::{find_key, index_push, views, FileIndex};
use crate::lsp::lockbud_ty::{
    suspicious_name, AnalysisResult, HighlightArea, RangeInFile, SuspiciousCall,
};

verus! {

#[derive(Clone, Copy, Debug, PartialEq, Eq, Structural)]
pub struct Position {
    pub line: u32,
    pub character: u32,
}

#[derive(Clone, Copy, Debug, PartialEq, Eq, Structural)]
pub struct Range {
    pub start: Position,
    pub end: Position,
}

#[derive(Clone, Copy, Debug, PartialEq, Eq, Structural)]
pub enum DocumentHighlightKind {
    Text,
    Read,
    Write,
}

#[derive(Clone, Copy, Debug, PartialEq, Eq, Structural)]
pub struct DocumentHighlight {
    pub range: Range,
    pub kind: Option<DocumentHighlightKind>,
}

/// The highlights of one critical section, and the ranges that bring them up.
#[derive(Debug)]
pub struct DocHighlightsWithTrigger {
    pub areas: Vec<DocumentHighlight>,
    pub triggers: Vec<RangeInFile>,
}

pub type DocView = (Seq<DocumentHighlight>, Seq<RangeInFile>);

impl View for DocHighlightsWithTrigger {
    type V = DocView;

    open spec fn view(&self) -> DocView {
        (self.areas@, self.triggers@)
    }
}

pub type IndexedHighlights = FileIndex<DocHighlightsWithTrigger>;

#[derive(Clone, Copy, Debug, PartialEq, Eq, Structural)]
pub enum DiagnosticSeverity {
    Error,
    Warning,
    Information,
    Hint,
}

/// A range in a file; the file is named by its path.
#[derive(Debug)]
pub struct DiagnosticLocation {
    pub uri: String,
    pub range: Range,
}

#[derive(Debug)]
pub struct DiagnosticRelatedInformation {
    pub location: DiagnosticLocation,
    pub message: String,
}

pub type RelatedView = (Seq<char>, Range, Seq<char>);

impl View for DiagnosticRelatedInformation {
    type V = RelatedView;

    open spec fn view(&self) -> RelatedView {
        (self.location.uri@, self.location.range, self.message@)
    }
}

#[derive(Debug)]
pub struct Diagnostic {
    pub range: Range,
    pub severity: DiagnosticSeverity,
    pub source: String,
    pub message: String,
    pub related_information: Option<Vec<DiagnosticRelatedInformation>>,
}

pub type DiagnosticView = (Range, DiagnosticSeverity, Seq<char>, Seq<char>, Option<Seq<RelatedView>>);

impl View for Diagnostic {
    type V = DiagnosticView;

    open spec fn view(&self) -> DiagnosticView {
        (
            self.range,
            self.severity,
            self.source@,
            self.message@,
            match self.related_information {
                Some(v) => Some(views(v@)),
                None => None,
            },
        )
    }
}

pub type IndexedDiagnostics = FileIndex<Diagnostic>;

// ---------------------------------------------------------------------------------------------
// Coordinates
pub open spec fn one_based(h: RangeInFile) -> bool {
    h.1 >= 1 && h.2 >= 1 && h.3 >= 1 && h.4 >= 1
}

pub open spec fn all_one_based(s: Seq<RangeInFile>) -> bool {
    forall|j: int| 0 <= j < s.len() ==> one_based(#[trigger] s[j])
}

/// The 0-based editor range of a 1-based range.
pub open spec fn to_range(h: RangeInFile) -> Range {
    Range {
        start: Position { line: (h.1 - 1) as u32, character: (h.2 - 1) as u32 },
        end: Position { line: (h.3 - 1) as u32, character: (h.4 - 1) as u32 },
    }
}

pub open spec fn zero_based(h: RangeInFile) -> RangeInFile {
    (h.0, (h.1 - 1) as u32, (h.2 - 1) as u32, (h.3 - 1) as u32, (h.4 - 1) as u32)
}

fn to_range_exec(h: &RangeInFile) -> (r: Range)
    requires
        one_based(*h),
    ensures
        r == to_range(*h),
{
    Range {
        start: Position { line: h.1 - 1, character: h.2 - 1 },
        end: Position { line: h.3 - 1, character: h.4 - 1 },
    }
}

fn zero_based_exec(h: &RangeInFile) -> (r: RangeInFile)
    requires
        one_based(*h),
    ensures
        r == zero_based(*h),
{
    (h.0.clone(), h.1 - 1, h.2 - 1, h.3 - 1, h.4 - 1)
}

// ---------------------------------------------------------------------------------------------
// Highlights
pub open spec fn text_highlight(h: RangeInFile) -> DocumentHighlight {
    DocumentHighlight { range: to_range(h), kind: Some(DocumentHighlightKind::Text) }
}

pub open spec fn doc_view(a: HighlightArea) -> DocView {
    (
        a.ranges@.map_values(|h: RangeInFile| text_highlight(h)),
        a.triggers@.map_values(|t: RangeInFile| zero_based(t)),
    )
}

/// Every area names its file by a first range, and all coordinates are 1-based.
pub open spec fn areas_well_formed(raw: Seq<HighlightArea>) -> bool {
    forall|i: int|
        0 <= i < raw.len() ==> (#[trigger] raw[i]).ranges@.len() > 0 && all_one_based(
            raw[i].ranges@,
        ) && all_one_based(raw[i].triggers@)
}

/// The areas grouped by the file of their first range.
pub open spec fn highlights_index(raw: Seq<HighlightArea>) -> Seq<(Seq<char>, Seq<DocView>)>
    decreases raw.len(),
{
    if raw.len() == 0 {
        Seq::empty()
    } else {
        index_push(
            highlights_index(raw.drop_last()),
            raw.last().ranges@[0].0@,
            doc_view(raw.last()),
        )
    }
}

fn doc_highlights(a: &HighlightArea) -> (r: DocHighlightsWithTrigger)
    requires
        all_one_based(a.ranges@),
        all_one_based(a.triggers@),
    ensures
        r@ == doc_view(*a),
{
    let mut areas: Vec<DocumentHighlight> = Vec::new();
    let mut i: usize = 0;
    while i < a.ranges.len()
        invariant
            all_one_based(a.ranges@),
            i <= a.ranges@.len(),
            areas@ == a.ranges@.take(i as int).map_values(|h: RangeInFile| text_highlight(h)),
        decreases a.ranges@.len() - i,
    {
        let range = to_range_exec(&a.ranges[i]);
        areas.push(DocumentHighlight { range, kind: Some(DocumentHighlightKind::Text) });
        proof {
            assert(areas@ =~= a.ranges@.take(i + 1).map_values(
                |h: RangeInFile| text_highlight(h),
            ));
        }
        i = i + 1;
    }
    let mut triggers: Vec<RangeInFile> = Vec::new();
    let mut j: usize = 0;
    while j < a.triggers.len()
        invariant
            all_one_based(a.triggers@),
            j <= a.triggers@.len(),
            triggers@ == a.triggers@.take(j as int).map_values(|t: RangeInFile| zero_based(t)),
        decreases a.triggers@.len() - j,
    {
        triggers.push(zero_based_exec(&a.triggers[j]));
        proof {
            assert(triggers@ =~= a.triggers@.take(j + 1).map_values(
                |t: RangeInFile| zero_based(t),
            ));
        }
        j = j + 1;
    }
    proof {
        assert(a.ranges@.take(a.ranges@.len() as int) =~= a.ranges@);
        assert(a.triggers@.take(a.triggers@.len() as int) =~= a.triggers@);
    }
    DocHighlightsWithTrigger { areas, triggers }
}

/// Groups highlight areas by file, converting them to 0-based editor highlights.
pub fn raw_highlight_to_doc_highlights(raw: &Vec<HighlightArea>) -> (r: IndexedHighlights)
    requires
        areas_well_formed(raw@),
    ensures
        r.wf(),
        r.entries() == highlights_index(raw@),
{
    let mut ih: IndexedHighlights = FileIndex::new();
    let mut i: usize = 0;
    while i < raw.len()
        invariant
            areas_well_formed(raw@),
            i <= raw@.len(),
            ih.wf(),
            ih.entries() == highlights_index(raw@.take(i as int)),
        decreases raw@.len() - i,
    {
        let r = &raw[i];
        proof {
            assert(areas_well_formed(raw@));
            assert(raw@[i as int].ranges@.len() > 0);
        }
        let d = doc_highlights(r);
        ih.push_to(&r.ranges[0].0, d);
        proof {
            assert(raw@.take(i + 1).drop_last() =~= raw@.take(i as int));
        }
        i = i + 1;
    }
    proof {
        assert(raw@.take(raw@.len() as int) =~= raw@);
    }
    ih
}

/// The cursor at `pos` lies in the trigger range `t`.
pub open spec fn covers(t: RangeInFile, pos: Position) -> bool {
    t.1 <= pos.line && t.2 <= pos.character && t.3 >= pos.line && t.4 >= pos.character
}

pub open spec fn triggered(triggers: Seq<RangeInFile>, pos: Position) -> bool {
    exists|j: int| 0 <= j < triggers.len() && covers(#[trigger] triggers[j], pos)
}

/// The highlights of the first area that a trigger at `pos` brings up.
pub open spec fn first_triggered(areas: Seq<DocView>, pos: Position) -> Option<
    Seq<DocumentHighlight>,
>
    decreases areas.len(),
{
    if areas.len() == 0 {
        None
    } else if triggered(areas[0].1, pos) {
        Some(areas[0].0)
    } else {
        first_triggered(areas.subrange(1, areas.len() as int), pos)
    }
}

/// The highlights for the cursor at `pos` in `file`.
pub open spec fn highlights_at(
    entries: Seq<(Seq<char>, Seq<DocView>)>,
    file: Seq<char>,
    pos: Position,
) -> Option<Seq<DocumentHighlight>> {
    let i = find_key(entries, file);
    if i < 0 {
        None
    } else {
        first_triggered(entries[i].1, pos)
    }
}

fn is_triggered(triggers: &Vec<RangeInFile>, pos: &Position) -> (r: bool)
    ensures
        r == triggered(triggers@, *pos),
{
    let mut j: usize = 0;
    while j < triggers.len()
        invariant
            j <= triggers@.len(),
            forall|k: int| 0 <= k < j ==> !covers(#[trigger] triggers@[k], *pos),
        decreases triggers@.len() - j,
    {
        let h = &triggers[j];
        if h.1 <= pos.line && h.2 <= pos.character && h.3 >= pos.line && h.4 >= pos.character {
            proof {
                assert(covers(triggers@[j as int], *pos));
            }
            return true;
        }
        j = j + 1;
    }
    false
}

fn copy_highlights(v: &Vec<DocumentHighlight>) -> (r: Vec<DocumentHighlight>)
    ensures
        r@ == v@,
{
    let mut r: Vec<DocumentHighlight> = Vec::new();
    let mut i: usize = 0;
    while i < v.len()
        invariant
            i <= v@.len(),
            r@ == v@.take(i as int),
        decreases v@.len() - i,
    {
        r.push(v[i]);
        proof {
            assert(r@ =~= v@.take(i + 1));
        }
        i = i + 1;
    }
    proof {
        assert(v@.take(v@.len() as int) =~= v@);
    }
    r
}

// ---------------------------------------------------------------------------------------------
// Diagnostics
/// Every call has a chain, and all coordinates are 1-based.
pub open spec fn calls_well_formed(calls: Seq<SuspiciousCall>) -> bool {
    forall|i: int|
        0 <= i < calls.len() ==> (#[trigger] calls[i]).callchains@.len() > 0 && all_one_based(
            calls[i].callchains@,
        )
}

pub open spec fn related_view(r: RangeInFile) -> RelatedView {
    (r.0@, to_range(r), "may contains blocking call in critical section"@)
}

pub open spec fn related_views(s: Seq<RangeInFile>) -> Seq<RelatedView> {
    s.map_values(|r: RangeInFile| related_view(r))
}

/// The diagnostic of a call: at the last span of its chain, with the earlier spans related.
pub open spec fn diagnostic_view(call: SuspiciousCall) -> DiagnosticView {
    let chain = call.callchains@;
    let relateds = chain.drop_last();
    (
        to_range(chain.last()),
        DiagnosticSeverity::Information,
        "rust-deadlock-detector"@,
        suspicious_name(call.ty) + " in critical section"@,
        if relateds.len() > 0 {
            Some(related_views(relateds))
        } else {
            None
        },
    )
}

/// The diagnostics of the calls, grouped by the file of the last span of each chain.
pub open spec fn diagnostics_index(calls: Seq<SuspiciousCall>) -> Seq<
    (Seq<char>, Seq<DiagnosticView>),
>
    decreases calls.len(),
{
    if calls.len() == 0 {
        Seq::empty()
    } else {
        index_push(
            diagnostics_index(calls.drop_last()),
            calls.last().callchains@.last().0@,
            diagnostic_view(calls.last()),
        )
    }
}

fn call_diagnostic(call: &SuspiciousCall) -> (r: Diagnostic)
    requires
        call.callchains@.len() > 0,
        all_one_based(call.callchains@),
    ensures
        r@ == diagnostic_view(*call),
{
    let n = call.callchains.len();
    let target = &call.callchains[n - 1];
    let mut message = String::from_str(call.ty.name());
    message.append(" in critical section");
    let mut relateds: Vec<DiagnosticRelatedInformation> = Vec::new();
    let mut i: usize = 0;
    while i < n - 1
        invariant
            n == call.callchains@.len(),
            n > 0,
            all_one_based(call.callchains@),
            i <= n - 1,
            relateds@.len() == i,
            views(relateds@) == related_views(call.callchains@.take(i as int)),
        decreases n - 1 - i,
    {
        let r = &call.callchains[i];
        let range = to_range_exec(r);
        let ghost prev = relateds@;
        relateds.push(
            DiagnosticRelatedInformation {
                location: DiagnosticLocation { uri: r.0.clone(), range },
                message: String::from_str("may contains blocking call in critical section"),
            },
        );
        proof {
            assert(relateds@.last()@ == related_view(call.callchains@[i as int]));
            assert(call.callchains@.take(i + 1) =~= call.callchains@.take(i as int).push(
                call.callchains@[i as int],
            ));
            assert forall|k: int| 0 <= k < i + 1 implies #[trigger] views(relateds@)[k]
                == related_views(call.callchains@.take(i + 1))[k] by {
                if k < i {
                    assert(relateds@[k] == prev[k]);
                    assert(views(prev)[k] == related_views(call.callchains@.take(i as int))[k]);
                }
            }
            assert(views(relateds@) =~= related_views(call.callchains@.take(i + 1)));
        }
        i = i + 1;
    }
    proof {
        assert(call.callchains@.take(n - 1) =~= call.callchains@.drop_last());
    }
    let related_information = if relateds.len() > 0 {
        Some(relateds)
    } else {
        None
    };
    Diagnostic {
        range: to_range_exec(target),
        severity: DiagnosticSeverity::Information,
        source: String::from_str("rust-deadlock-detector"),
        message,
        related_information,
    }
}

/// One diagnostic per suspicious call, grouped by the file of the call's last span.
pub fn suspicious_calls_to_diagnostics(calls: &Vec<SuspiciousCall>) -> (r: IndexedDiagnostics)
    requires
        calls_well_formed(calls@),
    ensures
        r.wf(),
        r.entries() == diagnostics_index(calls@),
{
    let mut result: IndexedDiagnostics = FileIndex::new();
    let mut i: usize = 0;
    while i < calls.len()
        invariant
            calls_well_formed(calls@),
            i <= calls@.len(),
            result.wf(),
            result.entries() == diagnostics_index(calls@.take(i as int)),
        decreases calls@.len() - i,
    {
        let call = &calls[i];
        proof {
            assert(calls_well_formed(calls@));
            assert(calls@[i as int].callchains@.len() > 0);
        }
        let d = call_diagnostic(call);
        let n = call.callchains.len();
        let ghost before = result.entries();
        result.push_to(&call.callchains[n - 1].0, d);
        proof {
            let t = calls@.take(i + 1);
            assert(t.drop_last() =~= calls@.take(i as int));
            assert(t.last() == *call);
            assert(result.entries() == index_push(
                before,
                call.callchains@.last().0@,
                diagnostic_view(*call),
            ));
        }
        i = i + 1;
    }
    proof {
        assert(calls@.take(calls@.len() as int) =~= calls@);
    }
    result
}

fn all_one_based_exec(s: &Vec<RangeInFile>) -> (r: bool)
    ensures
        r == all_one_based(s@),
{
    let mut j: usize = 0;
    while j < s.len()
        invariant
            j <= s@.len(),
            forall|k: int| 0 <= k < j ==> one_based(#[trigger] s@[k]),
        decreases s@.len() - j,
    {
        let h = &s[j];
        if !(h.1 >= 1 && h.2 >= 1 && h.3 >= 1 && h.4 >= 1) {
            proof {
                assert(!one_based(s@[j as int]));
            }
            return false;
        }
        j = j + 1;
    }
    true
}

/// Whether highlight areas can be indexed: each has a first range, all coordinates 1-based.
pub fn areas_ok(raw: &Vec<HighlightArea>) -> (r: bool)
    ensures
        r == areas_well_formed(raw@),
{
    let mut i: usize = 0;
    while i < raw.len()
        invariant
            i <= raw@.len(),
            forall|k: int|
                0 <= k < i ==> (#[trigger] raw@[k]).ranges@.len() > 0 && all_one_based(
                    raw@[k].ranges@,
                ) && all_one_based(raw@[k].triggers@),
        decreases raw@.len() - i,
    {
        let a = &raw[i];
        if a.ranges.len() == 0 || !all_one_based_exec(&a.ranges) || !all_one_based_exec(
            &a.triggers,
        ) {
            proof {
                assert(!(raw@[i as int].ranges@.len() > 0 && all_one_based(raw@[i as int].ranges@)
                    && all_one_based(raw@[i as int].triggers@)));
            }
            return false;
        }
        i = i + 1;
    }
    true
}

/// Whether suspicious calls can become diagnostics: each has a chain, all coordinates 1-based.
pub fn calls_ok(calls: &Vec<SuspiciousCall>) -> (r: bool)
    ensures
        r == calls_well_formed(calls@),
{
    let mut i: usize = 0;
    while i < calls.len()
        invariant
            i <= calls@.len(),
            forall|k: int|
                0 <= k < i ==> (#[trigger] calls@[k]).callchains@.len() > 0 && all_one_based(
                    calls@[k].callchains@,
                ),
        decreases calls@.len() - i,
    {
        let c = &calls[i];
        if c.callchains.len() == 0 || !all_one_based_exec(&c.callchains) {
            proof {
                assert(!(calls@[i as int].callchains@.len() > 0 && all_one_based(
                    calls@[i as int].callchains@,
                )));
            }
            return false;
        }
        i = i + 1;
    }
    true
}

// ---------------------------------------------------------------------------------------------
// The state
/// The last analysis result, and its highlights indexed by file.
pub struct GlobalCtxt {
    pub result: Option<AnalysisResult>,
    pub file_highlights: IndexedHighlights,
}

impl GlobalCtxt {
    pub open spec fn wf(&self) -> bool {
        &&& self.file_highlights.wf()
        &&& match self.result {
            Some(r) => calls_well_formed(r.calls@),
            None => true,
        }
    }

    pub fn new() -> (r: Self)
        ensures
            r.wf(),
            r.result is None,
            r.file_highlights.entries().len() == 0,
    {
        GlobalCtxt { result: None, file_highlights: FileIndex::new() }
    }

    /// Takes a new analysis result and indexes its highlights.
    pub fn update_from_analysis_result(&mut self, result: AnalysisResult)
        requires
            areas_well_formed(result.critical_sections@),
            calls_well_formed(result.calls@),
        ensures
            final(self).wf(),
            final(self).file_highlights.entries() == highlights_index(
                result.critical_sections@,
            ),
            final(self).result == Some(result),
    {
        self.file_highlights = raw_highlight_to_doc_highlights(&result.critical_sections);
        self.result = Some(result);
    }

    /// The highlights of the first critical section of `file` that a trigger at `pos` brings up.
    pub fn get_highlights(&self, file: &str, pos: &Position) -> (r: Option<
        Vec<DocumentHighlight>,
    >)
        requires
            self.wf(),
        ensures
            match r {
                Some(v) => highlights_at(self.file_highlights.entries(), file@, *pos) == Some(
                    v@,
                ),
                None => highlights_at(self.file_highlights.entries(), file@, *pos) is None,
            },
    {
        match self.file_highlights.get(file) {
            Some(areas) => {
                let ghost list = views(areas@);
                proof {
                    assert(list.subrange(0, list.len() as int) =~= list);
                }
                let mut i: usize = 0;
                while i < areas.len()
                    invariant
                        list == views(areas@),
                        find_key(self.file_highlights.entries(), file@) >= 0,
                        list == self.file_highlights.entries()[find_key(
                            self.file_highlights.entries(),
                            file@,
                        )].1,
                        i <= areas@.len(),
                        first_triggered(list, *pos) == first_triggered(
                            list.subrange(i as int, list.len() as int),
                            *pos,
                        ),
                    decreases areas@.len() - i,
                {
                    let area = &areas[i];
                    proof {
                        assert(list.subrange(i as int, list.len() as int)[0] == area@);
                        assert(list.subrange(i as int, list.len() as int).subrange(
                            1,
                            list.len() - i,
                        ) =~= list.subrange(i + 1, list.len() as int));
                    }
                    if is_triggered(&area.triggers, pos) {
                        let r = copy_highlights(&area.areas);
                        proof {
                            let sub = list.subrange(i as int, list.len() as int);
                            assert(sub[0].1 == area.triggers@);
                            assert(first_triggered(sub, *pos) == Some(sub[0].0));
                        }
                        return Some(r);
                    }
                    i = i + 1;
                }
                None
            },
            None => None,
        }
    }

    /// The diagnostics of the current result, grouped by file; `None` before any result.
    pub fn get_diagnoistics(&self) -> (r: Option<IndexedDiagnostics>)
        requires
            self.wf(),
        ensures
            match self.result {
                Some(res) => r is Some && r->0.wf() && r->0.entries() == diagnostics_index(
                    res.calls@,
                ),
                None => r is None,
            },
    {
        match &self.result {
            Some(r) => Some(suspicious_calls_to_diagnostics(&r.calls)),
            None => None,
        }
    }
}

} // verus!
