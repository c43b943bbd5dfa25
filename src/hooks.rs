use vstd::prelude::*;

use crate::position::{range_contains, spec_range_contains, Position, Range};
use crate::protocol::{
    completions_view, diagnostics_view, report_view, CompletionItem, CompletionKind,
    Diagnostic, DiagnosticView, FileDiagnostics, Severity,
};
use crate::store::{files_removed, has_key, key_index, FileStore};
use crate::text::{texts, is_c_source, is_c_source_path, surround, text_less, text_lt, trim, trimmed};
use crate::tokens::{
    macro_argument_region, spec_argument_region, spec_split_args, spec_tokens_range,
    spec_tokens_text, split_macro_args, tokens_range, tokens_to_string, MacroExpansion, Token,
    groups_view,
};

verus! {

/// The name of a hook, as its definition gives it.
#[derive(Debug)]
pub struct HookDefinition {
    pub name: String,
}

/// Whether a hook macro declares the hook or runs it.
#[derive(Clone, Copy, Debug, PartialEq, Eq, Structural)]
pub enum HookInvocationKind {
    Definition,
    Run,
}

/// One use of either hook macro.
#[derive(Debug)]
pub struct HookInvocation {
    pub name: String,
    pub name_range: Range,
    pub argument_region: Range,
    pub kind: HookInvocationKind,
}

pub struct HookInvocationView {
    pub name: Seq<char>,
    pub name_range: Range,
    pub argument_region: Range,
    pub kind: HookInvocationKind,
}

impl View for HookInvocation {
    type V = HookInvocationView;

    open spec fn view(&self) -> HookInvocationView {
        HookInvocationView {
            name: self.name@,
            name_range: self.name_range,
            argument_region: self.argument_region,
            kind: self.kind,
        }
    }
}

/// The hook entities of one file.
#[derive(Debug)]
pub struct HookFileData {
    pub definitions: Vec<HookDefinition>,
    pub invocations: Vec<HookInvocation>,
}

pub struct HookFileView {
    pub definitions: Seq<Seq<char>>,
    pub invocations: Seq<HookInvocationView>,
}

impl View for HookFileData {
    type V = HookFileView;

    open spec fn view(&self) -> HookFileView {
        HookFileView {
            definitions: self.definitions@.map_values(|d: HookDefinition| d.name@),
            invocations: self.invocations@.map_values(|v: HookInvocation| v@),
        }
    }
}

/// The macro that defines a hook.
pub open spec fn hook_macro() -> Seq<char> {
    seq!['H', 'O', 'O', 'K']
}

/// The macro that runs a hook.
pub open spec fn hook_run_macro() -> Seq<char> {
    seq!['H', 'O', 'O', 'K', '_', 'R', 'U', 'N']
}

/// The single argument of a hook macro use, if it has tokens and exactly one
/// top-level argument.
pub open spec fn hook_argument(e: MacroExpansion) -> Option<Seq<Token>> {
    if e.tokens@.len() == 0 {
        None
    } else {
        let args = spec_split_args(e.tokens@);
        if args.len() == 1 {
            Some(args[0])
        } else {
            None
        }
    }
}

/// The hook that a use of the definition macro defines.
pub open spec fn spec_hook_definition(e: MacroExpansion) -> Option<Seq<char>> {
    match hook_argument(e) {
        Some(a) => {
            let name = trimmed(spec_tokens_text(a));
            if name.len() > 0 {
                Some(name)
            } else {
                None
            }
        },
        None => None,
    }
}

/// The invocation record of a hook macro use.
pub open spec fn spec_hook_usage(e: MacroExpansion, kind: HookInvocationKind) -> Option<
    HookInvocationView,
> {
    match hook_argument(e) {
        None => None,
        Some(a) => {
            let region = match spec_argument_region(e.tokens@) {
                Some(r) => Some(r),
                None => e.extent,
            };
            match region {
                None => None,
                Some(region) => if a.len() == 0 {
                    Some(
                        HookInvocationView {
                            name: seq![],
                            name_range: region,
                            argument_region: region,
                            kind,
                        },
                    )
                } else {
                    Some(
                        HookInvocationView {
                            name: trimmed(spec_tokens_text(a)),
                            name_range: match spec_tokens_range(a) {
                                Some(r) => r,
                                None => region,
                            },
                            argument_region: region,
                            kind,
                        },
                    )
                },
            }
        },
    }
}

pub open spec fn opt_seq<A>(o: Option<A>) -> Seq<A> {
    match o {
        Some(x) => seq![x],
        None => seq![],
    }
}

/// The hook entities of a file whose macro uses are `es`, in source order.
pub open spec fn spec_hook_file(es: Seq<MacroExpansion>) -> HookFileView
    decreases es.len(),
{
    if es.len() == 0 {
        HookFileView { definitions: seq![], invocations: seq![] }
    } else {
        let f = spec_hook_file(es.drop_last());
        let e = es.last();
        if e.name@ == hook_macro() {
            HookFileView {
                definitions: f.definitions + opt_seq(spec_hook_definition(e)),
                invocations: f.invocations + opt_seq(
                    spec_hook_usage(e, HookInvocationKind::Definition),
                ),
            }
        } else if e.name@ == hook_run_macro() {
            HookFileView {
                definitions: f.definitions,
                invocations: f.invocations + opt_seq(spec_hook_usage(e, HookInvocationKind::Run)),
            }
        } else {
            f
        }
    }
}

/// The one argument of a macro use, taken out of its split.
fn single_argument(e: &MacroExpansion) -> (r: Option<Vec<Token>>)
    ensures
        match r {
            Some(a) => hook_argument(*e) == Some(a@),
            None => hook_argument(*e) is None,
        },
{
    if e.tokens.len() == 0 {
        return None;
    }
    let mut args = split_macro_args(&e.tokens);
    if args.len() != 1 {
        return None;
    }
    let a = args.remove(0);
    assert(groups_view(args@.insert(0, a)) =~= spec_split_args(e.tokens@));
    assert(spec_split_args(e.tokens@)[0] == a@);
    Some(a)
}

/// The hook that a use of the definition macro defines, if it has one
/// argument whose text is not blank.
pub fn build_hook_definition(e: &MacroExpansion) -> (r: Option<HookDefinition>)
    ensures
        match r {
            Some(d) => spec_hook_definition(*e) == Some(d.name@),
            None => spec_hook_definition(*e) is None,
        },
{
    let a = single_argument(e);
    match a {
        None => None,
        Some(a) => {
            let text = tokens_to_string(&a);
            let name = trim(&text);
            if name.as_str().is_empty() {
                None
            } else {
                Some(HookDefinition { name })
            }
        },
    }
}

/// The invocation record of a use of either hook macro: its argument region
/// is the span between the outer parentheses, else the extent of the whole
/// use; an empty argument gets an empty name at that region.
pub fn build_hook_usage(e: &MacroExpansion, kind: HookInvocationKind) -> (r: Option<
    HookInvocation,
>)
    ensures
        match r {
            Some(v) => spec_hook_usage(*e, kind) == Some(v@),
            None => spec_hook_usage(*e, kind) is None,
        },
{
    let a = match single_argument(e) {
        None => {
            return None;
        },
        Some(a) => a,
    };
    let region = match macro_argument_region(&e.tokens) {
        Some(r) => r,
        None => match e.extent {
            Some(r) => r,
            None => {
                return None;
            },
        },
    };
    if a.len() == 0 {
        Some(
            HookInvocation {
                name: String::new(),
                name_range: region,
                argument_region: region,
                kind,
            },
        )
    } else {
        let text = tokens_to_string(&a);
        let name = trim(&text);
        let name_range = match tokens_range(&a) {
            Some(r) => r,
            None => region,
        };
        Some(HookInvocation { name, name_range, argument_region: region, kind })
    }
}

/// Extracts the hook definitions and invocations of a file from its macro
/// uses.
pub fn parse_hooks(expansions: &Vec<MacroExpansion>) -> (r: HookFileData)
    ensures
        r@ == spec_hook_file(expansions@),
{
    let hook = String::from_str("HOOK");
    let hook_run = String::from_str("HOOK_RUN");
    proof {
        reveal_strlit("HOOK");
        reveal_strlit("HOOK_RUN");
        assert(hook@ =~= hook_macro());
        assert(hook_run@ =~= hook_run_macro());
    }
    let mut definitions: Vec<HookDefinition> = Vec::new();
    let mut invocations: Vec<HookInvocation> = Vec::new();
    let mut i: usize = 0;
    proof {
        assert(definitions@.map_values(|d: HookDefinition| d.name@) =~= seq![]);
        assert(invocations@.map_values(|v: HookInvocation| v@) =~= seq![]);
    }
    while i < expansions.len()
        invariant
            i <= expansions@.len(),
            hook@ == hook_macro(),
            hook_run@ == hook_run_macro(),
            (HookFileData { definitions, invocations })@ == spec_hook_file(
                expansions@.take(i as int),
            ),
        decreases expansions@.len() - i,
    {
        let e = &expansions[i];
        proof {
            assert(expansions@.take(i + 1).drop_last() =~= expansions@.take(i as int));
            assert(expansions@.take(i + 1).last() == expansions@[i as int]);
        }
        let ghost d0 = definitions@;
        let ghost v0 = invocations@;
        if e.name == hook {
            match build_hook_definition(e) {
                Some(d) => {
                    definitions.push(d);
                },
                None => {},
            }
            match build_hook_usage(e, HookInvocationKind::Definition) {
                Some(v) => {
                    invocations.push(v);
                },
                None => {},
            }
        } else if e.name == hook_run {
            match build_hook_usage(e, HookInvocationKind::Run) {
                Some(v) => {
                    invocations.push(v);
                },
                None => {},
            }
        }
        proof {
            let f = spec_hook_file(expansions@.take(i + 1));
            assert(definitions@.map_values(|d: HookDefinition| d.name@) =~= f.definitions);
            assert(invocations@.map_values(|v: HookInvocation| v@) =~= f.invocations);
        }
        i = i + 1;
    }
    proof {
        assert(expansions@.take(expansions@.len() as int) =~= expansions@);
    }
    HookFileData { definitions, invocations }
}

/// Some indexed file defines a hook called `name`.
pub open spec fn hook_known(files: Seq<(Seq<char>, HookFileView)>, name: Seq<char>) -> bool {
    exists|i: int, j: int|
        0 <= i < files.len() && 0 <= j < files[i].1.definitions.len()
            && #[trigger] files[i].1.definitions[j] == name
}

pub open spec fn unknown_hook_message(name: Seq<char>) -> Seq<char> {
    "Unknown hook '"@ + name + "'"@
}

pub open spec fn hooks_source() -> Seq<char> {
    "cronus-hooks"@
}

/// The error for each run of a hook that no indexed file defines, in order.
pub open spec fn hook_diagnostics_of(
    inv: Seq<HookInvocationView>,
    files: Seq<(Seq<char>, HookFileView)>,
) -> Seq<DiagnosticView>
    decreases inv.len(),
{
    if inv.len() == 0 {
        seq![]
    } else {
        let rest = hook_diagnostics_of(inv.drop_last(), files);
        let v = inv.last();
        if v.kind == HookInvocationKind::Run && v.name.len() > 0 && !hook_known(files, v.name) {
            rest.push(
                DiagnosticView {
                    range: v.name_range,
                    severity: Severity::Error,
                    message: unknown_hook_message(v.name),
                    source: hooks_source(),
                },
            )
        } else {
            rest
        }
    }
}

/// The files of `prefix` that have diagnostics, each with its diagnostics,
/// checked against the hooks of all of `files`.
pub open spec fn hook_report(
    prefix: Seq<(Seq<char>, HookFileView)>,
    files: Seq<(Seq<char>, HookFileView)>,
) -> Seq<(Seq<char>, Seq<DiagnosticView>)>
    decreases prefix.len(),
{
    if prefix.len() == 0 {
        seq![]
    } else {
        let rest = hook_report(prefix.drop_last(), files);
        let d = hook_diagnostics_of(prefix.last().1.invocations, files);
        if d.len() > 0 {
            rest.push((prefix.last().0, d))
        } else {
            rest
        }
    }
}


/// Each text comes before every later one.
pub open spec fn strictly_sorted(s: Seq<Seq<char>>) -> bool {
    forall|i: int, j: int| 0 <= i < j < s.len() ==> text_lt(#[trigger] s[i], #[trigger] s[j])
}

/// The position lies in the argument region of some hook macro use of the file.
pub open spec fn in_hook_region(f: HookFileView, p: Position) -> bool {
    exists|k: int|
        0 <= k < f.invocations.len() && spec_range_contains(
            #[trigger] f.invocations[k].argument_region,
            p,
        )
}

/// The candidates are every known hook name once, in ascending order, each a
/// function tagged `hook`.
pub open spec fn hook_candidates(
    c: Seq<crate::protocol::CompletionView>,
    files: Seq<(Seq<char>, HookFileView)>,
) -> bool {
    let labels = c.map_values(|x: crate::protocol::CompletionView| x.label);
    &&& strictly_sorted(labels)
    &&& forall|n: Seq<char>| labels.contains(n) <==> hook_known(files, n)
    &&& forall|k: int|
        0 <= k < c.len() ==> (#[trigger] c[k]).kind == CompletionKind::Function && c[k].detail
            == "hook"@
}

/// Adds `name` to a strictly sorted list of names unless it is there already.
fn insert_sorted(names: &mut Vec<String>, name: String)
    requires
        strictly_sorted(texts(old(names)@)),
    ensures
        strictly_sorted(texts(final(names)@)),
        forall|n: Seq<char>|
            texts(final(names)@).contains(n) <==> texts(old(names)@).contains(n) || n == name@,
{
    let mut p: usize = 0;
    loop
        invariant
            p <= names@.len(),
            names@ == old(names)@,
            forall|k: int| 0 <= k < p ==> text_lt(#[trigger] names@[k]@, name@),
        ensures
            p <= names@.len(),
            names@ == old(names)@,
            forall|k: int| 0 <= k < p ==> text_lt(#[trigger] names@[k]@, name@),
            p < names@.len() ==> !text_lt(names@[p as int]@, name@),
        decreases names@.len() - p,
    {
        if p >= names.len() {
            break;
        }
        if !text_less(&names[p], &name) {
            break;
        }
        p = p + 1;
    }
    let ghost old_t = texts(names@);
    if p < names.len() && names[p] == name {
        assert(old_t[p as int] == name@);
        return;
    }
    let ghost nm = name@;
    if p < names.len() {
        proof {
            crate::text::lemma_text_lt_total(names@[p as int]@, nm);
        }
    }
    names.insert(p, name);
    proof {
        let t = texts(names@);
        assert(t =~= old_t.insert(p as int, nm));
        assert forall|i: int, j: int| 0 <= i < j < t.len() implies text_lt(
            #[trigger] t[i],
            #[trigger] t[j],
        ) by {
            if j < p {
                assert(t[i] == old_t[i] && t[j] == old_t[j]);
            } else if j == p {
                assert(t[i] == old_t[i]);
            } else if i == p {
                assert(t[j] == old_t[j - 1]);
                if j - 1 > p {
                    crate::text::lemma_text_lt_transitive(nm, old_t[p as int], old_t[j - 1]);
                }
            } else if i < p {
                assert(t[i] == old_t[i] && t[j] == old_t[j - 1]);
                assert(text_lt(old_t[i], old_t[j - 1]));
            } else {
                assert(t[i] == old_t[i - 1] && t[j] == old_t[j - 1]);
            }
        }
        assert forall|n: Seq<char>| t.contains(n) <==> old_t.contains(n) || n == nm by {
            if t.contains(n) {
                let k = choose|k: int| 0 <= k < t.len() && t[k] == n;
                if k < p {
                    assert(old_t[k] == n);
                } else if k > p {
                    assert(old_t[k - 1] == n);
                }
            }
            if old_t.contains(n) {
                let k = choose|k: int| 0 <= k < old_t.len() && old_t[k] == n;
                if k < p {
                    assert(t[k] == n);
                } else {
                    assert(t[k + 1] == n);
                }
            }
            if n == nm {
                assert(t[p as int] == n);
            }
        }
    }
}

/// The indexed files after an update of `path` with the macro uses `es`.
pub open spec fn hook_files_updated(
    files: Seq<(Seq<char>, HookFileView)>,
    path: Seq<char>,
    es: Seq<MacroExpansion>,
) -> Seq<(Seq<char>, HookFileView)> {
    if is_c_source(path) {
        match key_index(files, path) {
            Some(i) => files.update(i, (path, spec_hook_file(es))),
            None => files.push((path, spec_hook_file(es))),
        }
    } else {
        files
    }
}

/// The hook indexer: the hook entities of every indexed C file.
pub struct HookPlugin {
    files: FileStore<HookFileData>,
}

impl HookPlugin {
    /// The indexed files with their hook entities.
    pub closed spec fn files(&self) -> Seq<(Seq<char>, HookFileView)> {
        self.files@
    }

    pub closed spec fn wf(&self) -> bool {
        self.files.wf()
    }

    pub proof fn lemma_wf(&self)
        requires
            self.wf(),
        ensures
            crate::store::keys_unique(self.files()),
    {
    }

    pub fn new() -> (r: HookPlugin)
        ensures
            r.wf(),
            r.files() == Seq::<(Seq<char>, HookFileView)>::empty(),
    {
        HookPlugin { files: FileStore::new() }
    }

    /// Replaces the entities of a C file by those of its macro uses; other
    /// files are ignored.
    pub fn on_file_updated(&mut self, path: String, expansions: &Vec<MacroExpansion>)
        requires
            old(self).wf(),
        ensures
            final(self).wf(),
            final(self).files() == hook_files_updated(old(self).files(), path@, expansions@),
    {
        if !is_c_source_path(&path) {
            return;
        }
        let data = parse_hooks(expansions);
        self.files.insert(path, data);
    }

    /// Drops the entities of a file; nothing changes if it was not indexed.
    pub fn on_file_removed(&mut self, path: &String)
        requires
            old(self).wf(),
        ensures
            final(self).wf(),
            final(self).files() == files_removed(old(self).files(), path@),
    {
        self.files.remove(path);
    }

    /// Whether some indexed file defines a hook called `name`.
    pub fn is_known(&self, name: &String) -> (r: bool)
        ensures
            r == hook_known(self.files(), name@),
    {
        let mut i: usize = 0;
        while i < self.files.len()
            invariant
                i <= self.files().len(),
                forall|a: int, b: int|
                    0 <= a < i && 0 <= b < self.files()[a].1.definitions.len()
                        ==> #[trigger] self.files()[a].1.definitions[b] != name@,
            decreases self.files().len() - i,
        {
            let entry = self.files.entry(i);
            let defs = &entry.1.definitions;
            let mut j: usize = 0;
            while j < defs.len()
                invariant
                    i < self.files().len(),
                    j <= defs@.len(),
                    self.files()[i as int].1.definitions == defs@.map_values(
                        |d: HookDefinition| d.name@,
                    ),
                    forall|b: int|
                        0 <= b < j ==> #[trigger] self.files()[i as int].1.definitions[b]
                            != name@,
                decreases defs@.len() - j,
            {
                if defs[j].name == *name {
                    assert(self.files()[i as int].1.definitions[j as int] == name@);
                    return true;
                }
                j = j + 1;
            }
            i = i + 1;
        }
        false
    }

    /// The known hook names, each once, in ascending order.
    fn known_names(&self) -> (r: Vec<String>)
        ensures
            strictly_sorted(texts(r@)),
            forall|n: Seq<char>| texts(r@).contains(n) <==> hook_known(self.files(), n),
    {
        let mut names: Vec<String> = Vec::new();
        let mut i: usize = 0;
        while i < self.files.len()
            invariant
                i <= self.files().len(),
                strictly_sorted(texts(names@)),
                forall|n: Seq<char>|
                    texts(names@).contains(n) <==> hook_known(self.files().take(i as int), n),
            decreases self.files().len() - i,
        {
            let entry = self.files.entry(i);
            let defs = &entry.1.definitions;
            let mut j: usize = 0;
            while j < defs.len()
                invariant
                    i < self.files().len(),
                    j <= defs@.len(),
                    self.files()[i as int].1.definitions == defs@.map_values(
                        |d: HookDefinition| d.name@,
                    ),
                    strictly_sorted(texts(names@)),
                    forall|n: Seq<char>|
                        texts(names@).contains(n) <==> hook_known(self.files().take(i as int), n)
                            || exists|b: int|
                            0 <= b < j && #[trigger] self.files()[i as int].1.definitions[b] == n,
                decreases defs@.len() - j,
            {
                let name = defs[j].name.clone();
                insert_sorted(&mut names, name);
                proof {
                    assert(self.files()[i as int].1.definitions[j as int] == defs@[j as int].name@);
                }
                j = j + 1;
            }
            proof {
                let f = self.files();
                let fi = f.take(i + 1);
                assert forall|n: Seq<char>|
                    texts(names@).contains(n) <==> hook_known(fi, n) by {
                    if hook_known(fi, n) {
                        let (a, b) = choose|a: int, b: int|
                            0 <= a < fi.len() && 0 <= b < fi[a].1.definitions.len()
                                && #[trigger] fi[a].1.definitions[b] == n;
                        if a < i {
                            assert(f.take(i as int)[a].1.definitions[b] == n);
                        } else {
                            assert(f[i as int].1.definitions[b] == n);
                        }
                    }
                    if hook_known(f.take(i as int), n) {
                        let (a, b) = choose|a: int, b: int|
                            0 <= a < i && 0 <= b < f.take(i as int)[a].1.definitions.len()
                                && #[trigger] f.take(i as int)[a].1.definitions[b] == n;
                        assert(fi[a].1.definitions[b] == n);
                    }
                    if exists|b: int| 0 <= b < defs@.len() && #[trigger] f[i as int].1.definitions[b] == n {
                        let b = choose|b: int| 0 <= b < defs@.len() && #[trigger] f[i as int].1.definitions[b] == n;
                        assert(fi[i as int].1.definitions[b] == n);
                    }
                }
            }
            i = i + 1;
        }
        proof {
            assert(self.files().take(self.files().len() as int) =~= self.files());
        }
        names
    }
}

impl HookPlugin {
    /// Every known hook name once, in ascending order, as a function
    /// candidate tagged `hook`.
    pub fn completion_items(&self) -> (r: Vec<CompletionItem>)
        ensures
            hook_candidates(completions_view(r@), self.files()),
    {
        let names = self.known_names();
        let mut items: Vec<CompletionItem> = Vec::new();
        let mut i: usize = 0;
        while i < names.len()
            invariant
                i <= names@.len(),
                items@.len() == i,
                forall|k: int|
                    0 <= k < i ==> (#[trigger] items@[k]).label@ == names@[k]@ && items@[k].kind
                        == CompletionKind::Function && items@[k].detail@ == "hook"@,
            decreases names@.len() - i,
        {
            items.push(
                CompletionItem {
                    label: names[i].clone(),
                    kind: CompletionKind::Function,
                    detail: String::from_str("hook"),
                },
            );
            i = i + 1;
        }
        proof {
            let c = completions_view(items@);
            let labels = c.map_values(|x: crate::protocol::CompletionView| x.label);
            assert(labels =~= texts(names@));
        }
        items
    }

    /// The hook candidates when `position` lies in the argument region of a
    /// hook macro use of the file, and none otherwise or when the file is
    /// not indexed.
    pub fn completions(&self, path: &String, position: &Position) -> (r: Option<
        Vec<CompletionItem>,
    >)
        requires
            self.wf(),
        ensures
            match key_index(self.files(), path@) {
                None => r is None,
                Some(i) => if in_hook_region(self.files()[i].1, *position) {
                    r matches Some(items) && hook_candidates(completions_view(items@), self.files())
                } else {
                    r is None
                },
            },
    {
        let data = match self.files.get(path) {
            None => {
                return None;
            },
            Some(d) => d,
        };
        let ghost f = data@;
        let mut k: usize = 0;
        let mut found = false;
        while k < data.invocations.len()
            invariant
                k <= data.invocations@.len(),
                f == data@,
                found ==> in_hook_region(f, *position),
                !found ==> forall|b: int|
                    0 <= b < k ==> !spec_range_contains(
                        #[trigger] f.invocations[b].argument_region,
                        *position,
                    ),
            ensures
                found ==> in_hook_region(f, *position),
                !found ==> !in_hook_region(f, *position),
            decreases data.invocations@.len() - k,
        {
            if range_contains(&data.invocations[k].argument_region, position) {
                assert(f.invocations[k as int].argument_region
                    == data.invocations@[k as int].argument_region);
                found = true;
                break;
            }
            assert(f.invocations[k as int].argument_region
                == data.invocations@[k as int].argument_region);
            k = k + 1;
        }
        if !found {
            return None;
        }
        Some(self.completion_items())
    }

    /// The errors of one file's hook runs.
    fn file_diagnostics(&self, data: &HookFileData) -> (r: Vec<Diagnostic>)
        ensures
            diagnostics_view(r@) == hook_diagnostics_of(data@.invocations, self.files()),
    {
        let mut out: Vec<Diagnostic> = Vec::new();
        let mut k: usize = 0;
        proof {
            assert(diagnostics_view(out@) =~= seq![]);
        }
        while k < data.invocations.len()
            invariant
                k <= data.invocations@.len(),
                diagnostics_view(out@) == hook_diagnostics_of(
                    data@.invocations.take(k as int),
                    self.files(),
                ),
            decreases data.invocations@.len() - k,
        {
            let v = &data.invocations[k];
            proof {
                assert(data@.invocations.take(k + 1).drop_last() =~= data@.invocations.take(
                    k as int,
                ));
                assert(data@.invocations.take(k + 1).last() == v@);
            }
            if v.kind == HookInvocationKind::Run && !v.name.as_str().is_empty() && !self.is_known(
                &v.name,
            ) {
                let message = surround("Unknown hook '", v.name.as_str(), "'");
                out.push(
                    Diagnostic {
                        range: v.name_range,
                        severity: Severity::Error,
                        message,
                        source: String::from_str("cronus-hooks"),
                    },
                );
            }
            proof {
                assert(diagnostics_view(out@) =~= hook_diagnostics_of(
                    data@.invocations.take(k + 1),
                    self.files(),
                ));
            }
            k = k + 1;
        }
        proof {
            assert(data@.invocations.take(data@.invocations.len() as int) =~= data@.invocations);
        }
        out
    }

    /// For each indexed file, in index order, an error at the name of every
    /// run of a hook that no indexed file defines; files without errors are
    /// left out.
    pub fn diagnostics(&self) -> (r: Vec<FileDiagnostics>)
        ensures
            report_view(r@) == hook_report(self.files(), self.files()),
    {
        let mut out: Vec<FileDiagnostics> = Vec::new();
        let mut i: usize = 0;
        proof {
            assert(report_view(out@) =~= seq![]);
        }
        while i < self.files.len()
            invariant
                i <= self.files().len(),
                report_view(out@) == hook_report(self.files().take(i as int), self.files()),
            decreases self.files().len() - i,
        {
            let entry = self.files.entry(i);
            proof {
                assert(self.files().take(i + 1).drop_last() =~= self.files().take(i as int));
                assert(self.files().take(i + 1).last() == self.files()[i as int]);
            }
            let diags = self.file_diagnostics(&entry.1);
            if diags.len() > 0 {
                out.push(FileDiagnostics { path: entry.0.clone(), diagnostics: diags });
            }
            proof {
                assert(report_view(out@) =~= hook_report(self.files().take(i + 1), self.files()));
            }
            i = i + 1;
        }
        proof {
            assert(self.files().take(self.files().len() as int) =~= self.files());
        }
        out
    }
}

} // verus!

verus! {

/// Every file of a hook report is a file of the prefix it was made from.
pub proof fn lemma_hook_report_paths(
    prefix: Seq<(Seq<char>, HookFileView)>,
    files: Seq<(Seq<char>, HookFileView)>,
)
    ensures
        forall|k: int|
            0 <= k < hook_report(prefix, files).len() ==> has_key(
                prefix,
                (#[trigger] hook_report(prefix, files)[k]).0,
            ),
    decreases prefix.len(),
{
    if prefix.len() > 0 {
        let rest = prefix.drop_last();
        lemma_hook_report_paths(rest, files);
        let r = hook_report(prefix, files);
        assert forall|k: int| 0 <= k < r.len() implies has_key(prefix, (#[trigger] r[k]).0) by {
            if k < hook_report(rest, files).len() {
                assert(has_key(rest, hook_report(rest, files)[k].0));
                let j = choose|j: int| 0 <= j < rest.len() && #[trigger] rest[j].0 == hook_report(rest, files)[k].0;
                assert(prefix[j] == rest[j]);
                assert(r[k] == hook_report(rest, files)[k]);
            } else {
                assert(prefix[prefix.len() - 1].0 == r[k].0);
            }
        }
    }
}

} // verus!
