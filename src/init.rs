use vstd::prelude::*;

use crate::hooks::opt_seq;
use crate::position::{range_contains, spec_range_contains, Position, Range};
use crate::protocol::{
    completions_view, diagnostics_view, report_view, CompletionItem, CompletionKind,
    CompletionView, Diagnostic, DiagnosticView, FileDiagnostics, Severity,
};
use crate::store::{files_removed, has_key, key_index, FileStore};
use crate::text::{
    is_c_source, is_c_source_path, lower_of, lowercase, strip_quotes, surround, text_less, text_lt,
    unquoted,
};
use crate::tokens::{
    groups_view, spec_split_args, spec_tokens_range, spec_tokens_text, split_macro_args,
    tokens_range, tokens_to_string, MacroExpansion, Token, TokenKind,
};

verus! {

/// One string literal of a target's dependency list.
#[derive(Debug)]
pub struct DependencySlot {
    pub name: String,
    pub range: Range,
}

pub struct DependencySlotView {
    pub name: Seq<char>,
    pub range: Range,
}

impl View for DependencySlot {
    type V = DependencySlotView;

    open spec fn view(&self) -> DependencySlotView {
        DependencySlotView { name: self.name@, range: self.range }
    }
}

/// An init target with the names it depends on.
#[derive(Debug)]
pub struct InitTarget {
    pub name: String,
    pub stage_expr: String,
    pub scope_expr: String,
    pub file: String,
    pub dependency_region: Range,
    pub dependency_slots: Vec<DependencySlot>,
}

pub struct InitTargetView {
    pub name: Seq<char>,
    pub stage_expr: Seq<char>,
    pub scope_expr: Seq<char>,
    pub file: Seq<char>,
    pub dependency_region: Range,
    pub dependency_slots: Seq<DependencySlotView>,
}

pub open spec fn slots_view(s: Seq<DependencySlot>) -> Seq<DependencySlotView> {
    s.map_values(|x: DependencySlot| x@)
}

impl View for InitTarget {
    type V = InitTargetView;

    open spec fn view(&self) -> InitTargetView {
        InitTargetView {
            name: self.name@,
            stage_expr: self.stage_expr@,
            scope_expr: self.scope_expr@,
            file: self.file@,
            dependency_region: self.dependency_region,
            dependency_slots: slots_view(self.dependency_slots@),
        }
    }
}

pub open spec fn targets_view(t: Seq<InitTarget>) -> Seq<InitTargetView> {
    t.map_values(|x: InitTarget| x@)
}

/// The macro that declares an init target.
pub open spec fn init_target_macro() -> Seq<char> {
    seq!['I', 'N', 'I', 'T', '_', 'T', 'A', 'R', 'G', 'E', 'T']
}

/// The scan of a dependency list: every string literal becomes a slot and
/// moves the end of the region to its own end; a literal whose extent does
/// not resolve spoils the whole target.
pub open spec fn slot_scan(toks: Seq<Token>, region: Range) -> Option<
    (Range, Seq<DependencySlotView>),
>
    decreases toks.len(),
{
    if toks.len() == 0 {
        Some((region, seq![]))
    } else {
        match slot_scan(toks.drop_last(), region) {
            None => None,
            Some(acc) => {
                let t = toks.last();
                if t.kind == TokenKind::Literal {
                    match t.range {
                        None => None,
                        Some(r) => Some(
                            (
                                Range { start: acc.0.start, end: r.end },
                                acc.1.push(
                                    DependencySlotView { name: unquoted(t.spelling@), range: r },
                                ),
                            ),
                        ),
                    }
                } else {
                    Some(acc)
                }
            },
        }
    }
}

/// The target that a use of the init-target macro in `file` declares: it
/// needs exactly four top-level arguments.
pub open spec fn spec_init_target(e: MacroExpansion, file: Seq<char>) -> Option<InitTargetView> {
    if e.tokens@.len() == 0 {
        None
    } else {
        let args = spec_split_args(e.tokens@);
        if args.len() != 4 {
            None
        } else {
            let start = match spec_tokens_range(args[3]) {
                Some(r) => Some(r),
                None => e.extent,
            };
            match start {
                None => None,
                Some(start) => match slot_scan(args[3], start) {
                    None => None,
                    Some(scan) => Some(
                        InitTargetView {
                            name: spec_tokens_text(args[0]),
                            stage_expr: spec_tokens_text(args[1]),
                            scope_expr: spec_tokens_text(args[2]),
                            file,
                            dependency_region: scan.0,
                            dependency_slots: scan.1,
                        },
                    ),
                },
            }
        }
    }
}

/// The init targets of a file whose macro uses are `es`, in source order.
pub open spec fn spec_init_file(es: Seq<MacroExpansion>, file: Seq<char>) -> Seq<InitTargetView>
    decreases es.len(),
{
    if es.len() == 0 {
        seq![]
    } else {
        let rest = spec_init_file(es.drop_last(), file);
        if es.last().name@ == init_target_macro() {
            rest + opt_seq(spec_init_target(es.last(), file))
        } else {
            rest
        }
    }
}

/// The target that a use of the init-target macro declares, if it has four
/// arguments and every literal of its dependency list resolves.
pub fn build_target(e: &MacroExpansion, file: &String) -> (r: Option<InitTarget>)
    ensures
        match r {
            Some(t) => spec_init_target(*e, file@) == Some(t@),
            None => spec_init_target(*e, file@) is None,
        },
{
    if e.tokens.len() == 0 {
        return None;
    }
    let args = split_macro_args(&e.tokens);
    if args.len() != 4 {
        return None;
    }
    proof {
        assert(groups_view(args@)[3] == args@[3]@);
        assert(groups_view(args@)[0] == args@[0]@);
        assert(groups_view(args@)[1] == args@[1]@);
        assert(groups_view(args@)[2] == args@[2]@);
    }
    let name = tokens_to_string(&args[0]);
    let stage_expr = tokens_to_string(&args[1]);
    let scope_expr = tokens_to_string(&args[2]);
    let deps = &args[3];
    let start = match tokens_range(deps) {
        Some(r) => r,
        None => match e.extent {
            Some(r) => r,
            None => {
                return None;
            },
        },
    };
    let mut region = start;
    let mut slots: Vec<DependencySlot> = Vec::new();
    let mut i: usize = 0;
    proof {
        assert(slots_view(slots@) =~= seq![]);
        assert(deps@.take(0) =~= seq![]);
    }
    while i < deps.len()
        invariant
            i <= deps@.len(),
            slot_scan(deps@.take(i as int), start) == Some((region, slots_view(slots@))),
            e.tokens@.len() > 0,
            groups_view(args@) == spec_split_args(e.tokens@),
            args@.len() == 4,
            deps@ == groups_view(args@)[3],
            name@ == spec_tokens_text(groups_view(args@)[0]),
            stage_expr@ == spec_tokens_text(groups_view(args@)[1]),
            scope_expr@ == spec_tokens_text(groups_view(args@)[2]),
            Some(start) == match spec_tokens_range(deps@) {
                Some(r) => Some(r),
                None => e.extent,
            },
        decreases deps@.len() - i,
    {
        let t = &deps[i];
        proof {
            assert(deps@.take(i + 1).drop_last() =~= deps@.take(i as int));
            assert(deps@.take(i + 1).last() == deps@[i as int]);
        }
        if t.kind == TokenKind::Literal {
            match t.range {
                None => {
                    proof {
                        lemma_slot_scan_spoiled(deps@, start, i + 1, deps@.len() as int);
                        assert(deps@.take(deps@.len() as int) =~= deps@);
                    }
                    return None;
                },
                Some(r) => {
                    region = Range { start: region.start, end: r.end };
                    let slot_name = strip_quotes(&t.spelling);
                    slots.push(DependencySlot { name: slot_name, range: r });
                    proof {
                        let scan = slot_scan(deps@.take(i + 1), start)->0;
                        assert(slots_view(slots@) =~= scan.1);
                    }
                },
            }
        }
        i = i + 1;
    }
    proof {
        assert(deps@.take(deps@.len() as int) =~= deps@);
    }
    Some(
        InitTarget {
            name,
            stage_expr,
            scope_expr,
            file: file.clone(),
            dependency_region: region,
            dependency_slots: slots,
        },
    )
}

proof fn lemma_slot_scan_spoiled(toks: Seq<Token>, region: Range, k: int, j: int)
    requires
        0 <= k <= j <= toks.len(),
        slot_scan(toks.take(k), region) is None,
    ensures
        slot_scan(toks.take(j), region) is None,
    decreases j - k,
{
    if j > k {
        lemma_slot_scan_spoiled(toks, region, k, j - 1);
        assert(toks.take(j).drop_last() =~= toks.take(j - 1));
    }
}

/// Extracts the init targets of a file from its macro uses.
pub fn parse_targets(file: &String, expansions: &Vec<MacroExpansion>) -> (r: Vec<InitTarget>)
    ensures
        targets_view(r@) == spec_init_file(expansions@, file@),
{
    let macro_name = String::from_str("INIT_TARGET");
    proof {
        reveal_strlit("INIT_TARGET");
        assert(macro_name@ =~= init_target_macro());
    }
    let mut targets: Vec<InitTarget> = Vec::new();
    let mut i: usize = 0;
    proof {
        assert(targets_view(targets@) =~= seq![]);
    }
    while i < expansions.len()
        invariant
            i <= expansions@.len(),
            macro_name@ == init_target_macro(),
            targets_view(targets@) == spec_init_file(expansions@.take(i as int), file@),
        decreases expansions@.len() - i,
    {
        let e = &expansions[i];
        proof {
            assert(expansions@.take(i + 1).drop_last() =~= expansions@.take(i as int));
            assert(expansions@.take(i + 1).last() == expansions@[i as int]);
        }
        if e.name == macro_name {
            match build_target(e, file) {
                Some(t) => {
                    targets.push(t);
                },
                None => {},
            }
        }
        proof {
            assert(targets_view(targets@) =~= spec_init_file(expansions@.take(i + 1), file@));
        }
        i = i + 1;
    }
    proof {
        assert(expansions@.take(expansions@.len() as int) =~= expansions@);
    }
    targets
}

/// The init targets of one file.
#[derive(Debug)]
pub struct InitFileData {
    pub targets: Vec<InitTarget>,
}

impl View for InitFileData {
    type V = Seq<InitTargetView>;

    open spec fn view(&self) -> Seq<InitTargetView> {
        targets_view(self.targets@)
    }
}

/// Some indexed file declares a target called `name`.
pub open spec fn init_known(files: Seq<(Seq<char>, Seq<InitTargetView>)>, name: Seq<char>) -> bool {
    exists|i: int, j: int|
        0 <= i < files.len() && 0 <= j < files[i].1.len() && #[trigger] files[i].1[j].name == name
}

/// How many of the slots name `n`.
pub open spec fn slot_count(slots: Seq<DependencySlotView>, n: Seq<char>) -> nat
    decreases slots.len(),
{
    if slots.len() == 0 {
        0
    } else {
        slot_count(slots.drop_last(), n) + if slots.last().name == n {
            1nat
        } else {
            0nat
        }
    }
}

pub open spec fn init_source() -> Seq<char> {
    "cronus-init"@
}

pub open spec fn unknown_dependency_message(name: Seq<char>) -> Seq<char> {
    "Unknown init dependency '"@ + name + "'"@
}

pub open spec fn duplicate_dependency_message(name: Seq<char>, target: Seq<char>) -> Seq<char> {
    "Duplicate dependency '"@ + name + "' in "@ + target
}

/// The diagnostics of one slot of target `t`: an error if no indexed file
/// declares its name, and, independently, a warning if `t` lists the name
/// more than once.
pub open spec fn slot_diagnostics(
    s: DependencySlotView,
    t: InitTargetView,
    files: Seq<(Seq<char>, Seq<InitTargetView>)>,
) -> Seq<DiagnosticView> {
    let unknown = if !init_known(files, s.name) {
        seq![
            DiagnosticView {
                range: s.range,
                severity: Severity::Error,
                message: unknown_dependency_message(s.name),
                source: init_source(),
            },
        ]
    } else {
        seq![]
    };
    let duplicate = if slot_count(t.dependency_slots, s.name) > 1 {
        seq![
            DiagnosticView {
                range: s.range,
                severity: Severity::Warning,
                message: duplicate_dependency_message(s.name, t.name),
                source: init_source(),
            },
        ]
    } else {
        seq![]
    };
    unknown + duplicate
}

/// The diagnostics of the slots of `prefix`, all of target `t`, in order.
pub open spec fn target_diagnostics(
    prefix: Seq<DependencySlotView>,
    t: InitTargetView,
    files: Seq<(Seq<char>, Seq<InitTargetView>)>,
) -> Seq<DiagnosticView>
    decreases prefix.len(),
{
    if prefix.len() == 0 {
        seq![]
    } else {
        target_diagnostics(prefix.drop_last(), t, files) + slot_diagnostics(prefix.last(), t, files)
    }
}

/// The diagnostics of the targets of one file, in order.
pub open spec fn init_file_diagnostics(
    targets: Seq<InitTargetView>,
    files: Seq<(Seq<char>, Seq<InitTargetView>)>,
) -> Seq<DiagnosticView>
    decreases targets.len(),
{
    if targets.len() == 0 {
        seq![]
    } else {
        let t = targets.last();
        init_file_diagnostics(targets.drop_last(), files) + target_diagnostics(
            t.dependency_slots,
            t,
            files,
        )
    }
}

/// The files of `prefix` that have diagnostics, each with its diagnostics,
/// checked against the targets of all of `files`.
pub open spec fn init_report(
    prefix: Seq<(Seq<char>, Seq<InitTargetView>)>,
    files: Seq<(Seq<char>, Seq<InitTargetView>)>,
) -> Seq<(Seq<char>, Seq<DiagnosticView>)>
    decreases prefix.len(),
{
    if prefix.len() == 0 {
        seq![]
    } else {
        let rest = init_report(prefix.drop_last(), files);
        let d = init_file_diagnostics(prefix.last().1, files);
        if d.len() > 0 {
            rest.push((prefix.last().0, d))
        } else {
            rest
        }
    }
}

/// The completion candidate of a target.
pub open spec fn target_candidate(t: InitTargetView) -> CompletionView {
    CompletionView {
        label: t.name,
        kind: CompletionKind::Constant,
        detail: t.stage_expr + "/"@ + t.scope_expr,
    }
}

/// The candidates of every target of the files, in index order.
pub open spec fn init_candidates(files: Seq<(Seq<char>, Seq<InitTargetView>)>) -> Seq<
    CompletionView,
>
    decreases files.len(),
{
    if files.len() == 0 {
        seq![]
    } else {
        init_candidates(files.drop_last()) + files.last().1.map_values(
            |t: InitTargetView| target_candidate(t),
        )
    }
}

/// The sort key of a candidate: its label in lower case.
pub open spec fn candidate_key(c: CompletionView) -> Seq<char> {
    lower_of(c.label)
}

/// Where `x` goes in `s`: after every candidate whose key is not greater.
pub open spec fn key_insert_pos(s: Seq<CompletionView>, x: CompletionView) -> int
    decreases s.len(),
{
    if s.len() == 0 {
        0
    } else if text_lt(candidate_key(x), candidate_key(s.last())) {
        key_insert_pos(s.drop_last(), x)
    } else {
        s.len() as int
    }
}

/// The candidates ordered by key; those with equal keys keep their order.
pub open spec fn key_sorted(s: Seq<CompletionView>) -> Seq<CompletionView>
    decreases s.len(),
{
    if s.len() == 0 {
        seq![]
    } else {
        let sorted = key_sorted(s.drop_last());
        sorted.insert(key_insert_pos(sorted, s.last()), s.last())
    }
}

proof fn lemma_key_insert_pos_bounds(s: Seq<CompletionView>, x: CompletionView)
    ensures
        0 <= key_insert_pos(s, x) <= s.len(),
    decreases s.len(),
{
    if s.len() > 0 {
        lemma_key_insert_pos_bounds(s.drop_last(), x);
    }
}

/// The sorted candidates are as many as the candidates.
pub proof fn lemma_key_sorted_len(s: Seq<CompletionView>)
    ensures
        key_sorted(s).len() == s.len(),
    decreases s.len(),
{
    if s.len() > 0 {
        lemma_key_sorted_len(s.drop_last());
        lemma_key_insert_pos_bounds(key_sorted(s.drop_last()), s.last());
    }
}

/// Inserts an item after every item whose key is not greater than its own.
fn insert_by_key(items: &mut Vec<CompletionItem>, keys: &mut Vec<String>, item: CompletionItem)
    requires
        old(items)@.len() == old(keys)@.len(),
        forall|k: int|
            0 <= k < old(keys)@.len() ==> #[trigger] old(keys)@[k]@ == candidate_key(
                old(items)@[k]@,
            ),
    ensures
        final(items)@.len() == final(keys)@.len(),
        forall|k: int|
            0 <= k < final(keys)@.len() ==> #[trigger] final(keys)@[k]@ == candidate_key(
                final(items)@[k]@,
            ),
        completions_view(final(items)@) == completions_view(old(items)@).insert(
            key_insert_pos(completions_view(old(items)@), item@),
            item@,
        ),
{
    let ghost s = completions_view(items@);
    let key = lowercase(&item.label);
    let mut p: usize = items.len();
    proof {
        assert(s.take(p as int) =~= s);
    }
    while p > 0 && text_less(&key, &keys[p - 1])
        invariant
            p <= items@.len(),
            items@ == old(items)@,
            keys@ == old(keys)@,
            s == completions_view(items@),
            key@ == candidate_key(item@),
            items@.len() == keys@.len(),
            forall|k: int| 0 <= k < keys@.len() ==> #[trigger] keys@[k]@ == candidate_key(items@[k]@),
            key_insert_pos(s, item@) == key_insert_pos(s.take(p as int), item@),
        decreases p,
    {
        proof {
            assert(s.take(p as int).drop_last() =~= s.take(p - 1));
            assert(s.take(p as int).last() == items@[p - 1]@);
        }
        p = p - 1;
    }
    proof {
        if p > 0 {
            assert(s.take(p as int).last() == items@[p - 1]@);
        }
    }
    items.insert(p, item);
    keys.insert(p, key);
    proof {
        assert(completions_view(items@) =~= s.insert(p as int, item@));
        assert forall|k: int| 0 <= k < keys@.len() implies #[trigger] keys@[k]@ == candidate_key(
            items@[k]@,
        ) by {
            if k < p {
                assert(keys@[k] == old(keys)@[k]);
            } else if k > p {
                assert(keys@[k] == old(keys)@[k - 1]);
                assert(items@[k] == old(items)@[k - 1]);
            }
        }
    }
}

/// The indexed files after an update of `path` with the macro uses `es`.
pub open spec fn init_files_updated(
    files: Seq<(Seq<char>, Seq<InitTargetView>)>,
    path: Seq<char>,
    es: Seq<MacroExpansion>,
) -> Seq<(Seq<char>, Seq<InitTargetView>)> {
    if is_c_source(path) {
        match key_index(files, path) {
            Some(i) => files.update(i, (path, spec_init_file(es, path))),
            None => files.push((path, spec_init_file(es, path))),
        }
    } else {
        files
    }
}

/// The init-target indexer: the init targets of every indexed C file.
pub struct InitDependencyPlugin {
    files: FileStore<InitFileData>,
}

impl InitDependencyPlugin {
    /// The indexed files with their init targets.
    pub closed spec fn files(&self) -> Seq<(Seq<char>, Seq<InitTargetView>)> {
        self.files@
    }

    pub closed spec fn wf(&self) -> bool {
        self.files.wf()
    }

    pub proof fn lemma_wf(&self)
        requires
            self.wf(),
        ensures
            crate::store::keys_unique(self.files()),
    {
    }

    pub fn new() -> (r: InitDependencyPlugin)
        ensures
            r.wf(),
            r.files() == Seq::<(Seq<char>, Seq<InitTargetView>)>::empty(),
    {
        InitDependencyPlugin { files: FileStore::new() }
    }

    /// Replaces the targets of a C file by those of its macro uses; other
    /// files are ignored.
    pub fn on_file_updated(&mut self, path: String, expansions: &Vec<MacroExpansion>)
        requires
            old(self).wf(),
        ensures
            final(self).wf(),
            final(self).files() == init_files_updated(old(self).files(), path@, expansions@),
    {
        if !is_c_source_path(&path) {
            return;
        }
        let targets = parse_targets(&path, expansions);
        self.files.insert(path, InitFileData { targets });
    }

    /// Drops the targets of a file; nothing changes if it was not indexed.
    pub fn on_file_removed(&mut self, path: &String)
        requires
            old(self).wf(),
        ensures
            final(self).wf(),
            final(self).files() == files_removed(old(self).files(), path@),
    {
        self.files.remove(path);
    }

    /// Whether some indexed file declares a target called `name`.
    pub fn is_known(&self, name: &String) -> (r: bool)
        ensures
            r == init_known(self.files(), name@),
    {
        let mut i: usize = 0;
        while i < self.files.len()
            invariant
                i <= self.files().len(),
                forall|a: int, b: int|
                    0 <= a < i && 0 <= b < self.files()[a].1.len() ==> #[trigger] self.files()[a].1[b].name
                        != name@,
            decreases self.files().len() - i,
        {
            let entry = self.files.entry(i);
            let targets = &entry.1.targets;
            let mut j: usize = 0;
            while j < targets.len()
                invariant
                    i < self.files().len(),
                    j <= targets@.len(),
                    self.files()[i as int].1 == targets_view(targets@),
                    forall|b: int| 0 <= b < j ==> #[trigger] self.files()[i as int].1[b].name != name@,
                decreases targets@.len() - j,
            {
                if targets[j].name == *name {
                    assert(self.files()[i as int].1[j as int].name == name@);
                    return true;
                }
                j = j + 1;
            }
            i = i + 1;
        }
        false
    }
}

/// The position lies in the dependency region of some target of the file.
pub open spec fn in_dependency_region(targets: Seq<InitTargetView>, p: Position) -> bool {
    exists|k: int|
        0 <= k < targets.len() && spec_range_contains(#[trigger] targets[k].dependency_region, p)
}

impl InitDependencyPlugin {
    /// The candidate of every indexed target, ordered by lower-case label;
    /// candidates with equal keys keep their index order.
    pub fn completion_items(&self) -> (r: Vec<CompletionItem>)
        ensures
            completions_view(r@) == key_sorted(init_candidates(self.files())),
    {
        let mut items: Vec<CompletionItem> = Vec::new();
        let mut keys: Vec<String> = Vec::new();
        let mut i: usize = 0;
        proof {
            assert(completions_view(items@) =~= seq![]);
            assert(self.files().take(0) =~= seq![]);
        }
        while i < self.files.len()
            invariant
                i <= self.files().len(),
                items@.len() == keys@.len(),
                forall|k: int| 0 <= k < keys@.len() ==> #[trigger] keys@[k]@ == candidate_key(items@[k]@),
                completions_view(items@) == key_sorted(init_candidates(self.files().take(i as int))),
            decreases self.files().len() - i,
        {
            let entry = self.files.entry(i);
            let targets = &entry.1.targets;
            let ghost base = init_candidates(self.files().take(i as int));
            let ghost ti = self.files()[i as int].1;
            let mut j: usize = 0;
            proof {
                assert(base + ti.take(0).map_values(|t: InitTargetView| target_candidate(t)) =~= base);
            }
            while j < targets.len()
                invariant
                    i < self.files().len(),
                    j <= targets@.len(),
                    ti == targets_view(targets@),
                    items@.len() == keys@.len(),
                    forall|k: int| 0 <= k < keys@.len() ==> #[trigger] keys@[k]@ == candidate_key(items@[k]@),
                    completions_view(items@) == key_sorted(
                        base + ti.take(j as int).map_values(|t: InitTargetView| target_candidate(t)),
                    ),
                decreases targets@.len() - j,
            {
                let t = &targets[j];
                let item = CompletionItem {
                    label: t.name.clone(),
                    kind: CompletionKind::Constant,
                    detail: surround(t.stage_expr.as_str(), "/", t.scope_expr.as_str()),
                };
                let ghost prev = base + ti.take(j as int).map_values(
                    |t: InitTargetView| target_candidate(t),
                );
                let ghost next = base + ti.take(j + 1).map_values(
                    |t: InitTargetView| target_candidate(t),
                );
                proof {
                    assert(ti[j as int] == t@);
                    assert(item@ == target_candidate(t@));
                    assert(next =~= prev.push(item@));
                    assert(next.drop_last() =~= prev);
                }
                insert_by_key(&mut items, &mut keys, item);
                j = j + 1;
            }
            proof {
                let f = self.files();
                assert(f.take(i + 1).drop_last() =~= f.take(i as int));
                assert(f.take(i + 1).last() == f[i as int]);
                assert(ti.take(ti.len() as int) =~= ti);
            }
            i = i + 1;
        }
        proof {
            assert(self.files().take(self.files().len() as int) =~= self.files());
        }
        items
    }

    /// The target candidates when `position` lies in the dependency region of
    /// a target of the file, and none otherwise or when the file is not
    /// indexed.
    pub fn completions(&self, path: &String, position: &Position) -> (r: Option<
        Vec<CompletionItem>,
    >)
        requires
            self.wf(),
        ensures
            match key_index(self.files(), path@) {
                None => r is None,
                Some(i) => if in_dependency_region(self.files()[i].1, *position) {
                    r matches Some(items) && completions_view(items@) == key_sorted(
                        init_candidates(self.files()),
                    ) && sorted_by_key(completions_view(items@))
                } else {
                    r is None
                },
            },
    {
        let data = match self.files.get(path) {
            None => {
                return None;
            },
            Some(d) => d,
        };
        let ghost f = data@;
        let mut k: usize = 0;
        let mut found = false;
        while k < data.targets.len()
            invariant
                k <= data.targets@.len(),
                f == data@,
                found ==> in_dependency_region(f, *position),
                !found ==> forall|b: int|
                    0 <= b < k ==> !spec_range_contains(
                        #[trigger] f[b].dependency_region,
                        *position,
                    ),
            ensures
                found ==> in_dependency_region(f, *position),
                !found ==> !in_dependency_region(f, *position),
            decreases data.targets@.len() - k,
        {
            assert(f[k as int].dependency_region == data.targets@[k as int].dependency_region);
            if range_contains(&data.targets[k].dependency_region, position) {
                found = true;
                break;
            }
            k = k + 1;
        }
        if !found {
            return None;
        }
        proof {
            lemma_key_sorted_ordered(init_candidates(self.files()));
        }
        Some(self.completion_items())
    }

    /// The diagnostics of every slot of one target.
    fn target_diagnostics_exec(&self, t: &InitTarget) -> (r: Vec<Diagnostic>)
        ensures
            diagnostics_view(r@) == target_diagnostics(
                t@.dependency_slots,
                t@,
                self.files(),
            ),
    {
        let slots = &t.dependency_slots;
        let ghost sv = t@.dependency_slots;
        let mut out: Vec<Diagnostic> = Vec::new();
        let mut k: usize = 0;
        proof {
            assert(diagnostics_view(out@) =~= seq![]);
        }
        while k < slots.len()
            invariant
                k <= slots@.len(),
                sv == slots_view(slots@),
                sv == t@.dependency_slots,
                diagnostics_view(out@) == target_diagnostics(sv.take(k as int), t@, self.files()),
            decreases slots@.len() - k,
        {
            let s = &slots[k];
            let ghost before = out@;
            proof {
                assert(sv.take(k + 1).drop_last() =~= sv.take(k as int));
                assert(sv.take(k + 1).last() == s@);
            }
            if !self.is_known(&s.name) {
                out.push(
                    Diagnostic {
                        range: s.range,
                        severity: Severity::Error,
                        message: surround("Unknown init dependency '", s.name.as_str(), "'"),
                        source: String::from_str("cronus-init"),
                    },
                );
            }
            let n = count_slots(slots, &s.name);
            if n > 1 {
                let mut message = surround("Duplicate dependency '", s.name.as_str(), "' in ");
                message.append(t.name.as_str());
                out.push(
                    Diagnostic {
                        range: s.range,
                        severity: Severity::Warning,
                        message,
                        source: String::from_str("cronus-init"),
                    },
                );
            }
            proof {
                assert(diagnostics_view(out@) =~= diagnostics_view(before) + slot_diagnostics(
                    s@,
                    t@,
                    self.files(),
                ));
            }
            k = k + 1;
        }
        proof {
            assert(sv.take(sv.len() as int) =~= sv);
        }
        out
    }

    /// For each indexed file, in index order, the diagnostics of its targets'
    /// dependency slots; files without diagnostics are left out.
    pub fn diagnostics(&self) -> (r: Vec<FileDiagnostics>)
        ensures
            report_view(r@) == init_report(self.files(), self.files()),
    {
        let mut out: Vec<FileDiagnostics> = Vec::new();
        let mut i: usize = 0;
        proof {
            assert(report_view(out@) =~= seq![]);
        }
        while i < self.files.len()
            invariant
                i <= self.files().len(),
                report_view(out@) == init_report(self.files().take(i as int), self.files()),
            decreases self.files().len() - i,
        {
            let entry = self.files.entry(i);
            let targets = &entry.1.targets;
            let ghost tv = self.files()[i as int].1;
            let mut diags: Vec<Diagnostic> = Vec::new();
            let mut j: usize = 0;
            proof {
                assert(self.files().take(i + 1).drop_last() =~= self.files().take(i as int));
                assert(self.files().take(i + 1).last() == self.files()[i as int]);
                assert(diagnostics_view(diags@) =~= seq![]);
            }
            while j < targets.len()
                invariant
                    i < self.files().len(),
                    j <= targets@.len(),
                    tv == targets_view(targets@),
                    diagnostics_view(diags@) == init_file_diagnostics(tv.take(j as int), self.files()),
                decreases targets@.len() - j,
            {
                let ghost before = diags@;
                let mut more = self.target_diagnostics_exec(&targets[j]);
                diags.append(&mut more);
                proof {
                    assert(tv.take(j + 1).drop_last() =~= tv.take(j as int));
                    assert(tv.take(j + 1).last() == targets@[j as int]@);
                    assert(diagnostics_view(diags@) =~= init_file_diagnostics(
                        tv.take(j + 1),
                        self.files(),
                    ));
                }
                j = j + 1;
            }
            proof {
                assert(tv.take(tv.len() as int) =~= tv);
            }
            if diags.len() > 0 {
                out.push(FileDiagnostics { path: entry.0.clone(), diagnostics: diags });
            }
            proof {
                assert(report_view(out@) =~= init_report(self.files().take(i + 1), self.files()));
            }
            i = i + 1;
        }
        proof {
            assert(self.files().take(self.files().len() as int) =~= self.files());
        }
        out
    }
}

/// How many of the slots are called `name`.
fn count_slots(slots: &Vec<DependencySlot>, name: &String) -> (r: usize)
    ensures
        r == slot_count(slots_view(slots@), name@),
{
    let mut n: usize = 0;
    let mut k: usize = 0;
    while k < slots.len()
        invariant
            k <= slots@.len(),
            n <= k,
            n == slot_count(slots_view(slots@).take(k as int), name@),
        decreases slots@.len() - k,
    {
        proof {
            let v = slots_view(slots@);
            assert(v.take(k + 1).drop_last() =~= v.take(k as int));
            assert(v.take(k + 1).last() == slots@[k as int]@);
        }
        if slots[k].name == *name {
            n = n + 1;
        }
        k = k + 1;
    }
    proof {
        assert(slots_view(slots@).take(slots@.len() as int) =~= slots_view(slots@));
    }
    n
}

} // verus!

verus! {

/// Every file of an init report is a file of the prefix it was made from.
pub proof fn lemma_init_report_paths(
    prefix: Seq<(Seq<char>, Seq<InitTargetView>)>,
    files: Seq<(Seq<char>, Seq<InitTargetView>)>,
)
    ensures
        forall|k: int|
            0 <= k < init_report(prefix, files).len() ==> has_key(
                prefix,
                (#[trigger] init_report(prefix, files)[k]).0,
            ),
    decreases prefix.len(),
{
    if prefix.len() > 0 {
        let rest = prefix.drop_last();
        lemma_init_report_paths(rest, files);
        let r = init_report(prefix, files);
        assert forall|k: int| 0 <= k < r.len() implies has_key(prefix, (#[trigger] r[k]).0) by {
            if k < init_report(rest, files).len() {
                assert(has_key(rest, init_report(rest, files)[k].0));
                let j = choose|j: int| 0 <= j < rest.len() && #[trigger] rest[j].0 == init_report(rest, files)[k].0;
                assert(prefix[j] == rest[j]);
                assert(r[k] == init_report(rest, files)[k]);
            } else {
                assert(prefix[prefix.len() - 1].0 == r[k].0);
            }
        }
    }
}

/// There is a candidate for each target of the files.
pub proof fn lemma_init_candidates_len(files: Seq<(Seq<char>, Seq<InitTargetView>)>, i: int)
    requires
        0 <= i < files.len(),
    ensures
        init_candidates(files).len() >= files[i].1.len(),
    decreases files.len(),
{
    if i < files.len() - 1 {
        lemma_init_candidates_len(files.drop_last(), i);
    }
}

} // verus!

verus! {

/// Each candidate's key is not greater than any later one's.
pub open spec fn sorted_by_key(s: Seq<CompletionView>) -> bool {
    forall|i: int, j: int|
        0 <= i < j < s.len() ==> !text_lt(candidate_key(#[trigger] s[j]), candidate_key(#[trigger] s[i]))
}

proof fn lemma_text_le_transitive(a: Seq<char>, b: Seq<char>, c: Seq<char>)
    requires
        !text_lt(b, a),
        !text_lt(c, b),
    ensures
        !text_lt(c, a),
{
    crate::text::lemma_text_lt_total(a, b);
    crate::text::lemma_text_lt_total(b, c);
    if text_lt(c, a) && a != b {
        crate::text::lemma_text_lt_transitive(c, a, b);
    }
}

proof fn lemma_key_insert_pos_splits(s: Seq<CompletionView>, x: CompletionView)
    requires
        sorted_by_key(s),
    ensures
        forall|k: int|
            0 <= k < key_insert_pos(s, x) ==> !text_lt(candidate_key(x), candidate_key(#[trigger] s[k])),
        forall|k: int|
            key_insert_pos(s, x) <= k < s.len() ==> text_lt(candidate_key(x), candidate_key(#[trigger] s[k])),
    decreases s.len(),
{
    if s.len() > 0 {
        let rest = s.drop_last();
        assert(sorted_by_key(rest)) by {
            assert forall|i: int, j: int| 0 <= i < j < rest.len() implies !text_lt(
                candidate_key(#[trigger] rest[j]),
                candidate_key(#[trigger] rest[i]),
            ) by {
                assert(rest[i] == s[i] && rest[j] == s[j]);
            }
        }
        lemma_key_insert_pos_splits(rest, x);
        lemma_key_insert_pos_bounds(rest, x);
        lemma_key_insert_pos_bounds(s, x);
        if text_lt(candidate_key(x), candidate_key(s.last())) {
            assert forall|k: int| 0 <= k < key_insert_pos(s, x) implies !text_lt(
                candidate_key(x),
                candidate_key(#[trigger] s[k]),
            ) by {
                assert(rest[k] == s[k]);
            }
            assert forall|k: int| key_insert_pos(s, x) <= k < s.len() implies text_lt(
                candidate_key(x),
                candidate_key(#[trigger] s[k]),
            ) by {
                if k < s.len() - 1 {
                    assert(rest[k] == s[k]);
                }
            }
        } else {
            assert forall|k: int| 0 <= k < key_insert_pos(s, x) implies !text_lt(
                candidate_key(x),
                candidate_key(#[trigger] s[k]),
            ) by {
                if k < s.len() - 1 {
                    assert(!text_lt(candidate_key(s[s.len() - 1]), candidate_key(s[k])));
                    lemma_text_le_transitive(
                        candidate_key(s[k]),
                        candidate_key(s[s.len() - 1]),
                        candidate_key(x),
                    );
                }
            }
        }
    }
}

/// The sorted candidates are ordered by key.
pub proof fn lemma_key_sorted_ordered(s: Seq<CompletionView>)
    ensures
        sorted_by_key(key_sorted(s)),
    decreases s.len(),
{
    if s.len() > 0 {
        let sorted = key_sorted(s.drop_last());
        let x = s.last();
        lemma_key_sorted_ordered(s.drop_last());
        lemma_key_insert_pos_bounds(sorted, x);
        lemma_key_insert_pos_splits(sorted, x);
        let p = key_insert_pos(sorted, x);
        let r = sorted.insert(p, x);
        assert forall|i: int, j: int| 0 <= i < j < r.len() implies !text_lt(
            candidate_key(#[trigger] r[j]),
            candidate_key(#[trigger] r[i]),
        ) by {
            if j < p {
                assert(r[i] == sorted[i] && r[j] == sorted[j]);
            } else if j == p {
                assert(r[i] == sorted[i]);
            } else if i == p {
                assert(r[j] == sorted[j - 1]);
                crate::text::lemma_text_lt_total(candidate_key(x), candidate_key(sorted[j - 1]));
            } else if i < p {
                assert(r[i] == sorted[i] && r[j] == sorted[j - 1]);
            } else {
                assert(r[i] == sorted[i - 1] && r[j] == sorted[j - 1]);
            }
        }
    }
}

} // verus!
