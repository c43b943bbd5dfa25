use vstd::prelude::*;

use crate::hooks::{
    hook_candidates, hook_files_updated, hook_known, hook_report, in_hook_region,
    lemma_hook_report_paths, spec_hook_file, HookFileView, HookPlugin,
};
use crate::init::{
    in_dependency_region, init_candidates, init_files_updated, init_known, init_report,
    key_sorted, lemma_init_candidates_len, lemma_init_report_paths, lemma_key_sorted_len,
    spec_init_file, InitDependencyPlugin, InitTargetView,
};
use crate::position::Position;
use crate::protocol::{
    completions_view, diagnostics_view, report_view, CompletionItem, CompletionView,
    DiagnosticView, FileDiagnostics,
};
use crate::store::{
    files_removed, key_index, keys_unique, lemma_files_removed, lemma_key_index, lemma_put_twice,
};
use crate::text::{is_c_source, texts};
use crate::tokens::MacroExpansion;

verus! {

/// One of the indexers that the server runs.
pub enum Plugin {
    InitDeps(InitDependencyPlugin),
    Hooks(HookPlugin),
}

pub enum PluginView {
    InitDeps(Seq<(Seq<char>, Seq<InitTargetView>)>),
    Hooks(Seq<(Seq<char>, HookFileView)>),
}

impl View for Plugin {
    type V = PluginView;

    open spec fn view(&self) -> PluginView {
        match self {
            Plugin::InitDeps(p) => PluginView::InitDeps(p.files()),
            Plugin::Hooks(p) => PluginView::Hooks(p.files()),
        }
    }
}

/// The plugin after an update of `path` with the macro uses `es`.
pub open spec fn plugin_updated(v: PluginView, path: Seq<char>, es: Seq<MacroExpansion>) -> PluginView {
    match v {
        PluginView::InitDeps(f) => PluginView::InitDeps(init_files_updated(f, path, es)),
        PluginView::Hooks(f) => PluginView::Hooks(hook_files_updated(f, path, es)),
    }
}

/// The plugin after `path` is dropped.
pub open spec fn plugin_removed(v: PluginView, path: Seq<char>) -> PluginView {
    match v {
        PluginView::InitDeps(f) => PluginView::InitDeps(files_removed(f, path)),
        PluginView::Hooks(f) => PluginView::Hooks(files_removed(f, path)),
    }
}

/// The plugin's diagnostics, by file.
pub open spec fn plugin_report(v: PluginView) -> Seq<(Seq<char>, Seq<DiagnosticView>)> {
    match v {
        PluginView::InitDeps(f) => init_report(f, f),
        PluginView::Hooks(f) => hook_report(f, f),
    }
}

/// The plugin offers completions at `pos` of `path`.
pub open spec fn plugin_offers(v: PluginView, path: Seq<char>, pos: Position) -> bool {
    match v {
        PluginView::InitDeps(f) => match key_index(f, path) {
            Some(i) => in_dependency_region(f[i].1, pos),
            None => false,
        },
        PluginView::Hooks(f) => match key_index(f, path) {
            Some(i) => in_hook_region(f[i].1, pos),
            None => false,
        },
    }
}

/// `c` are the candidates that the plugin offers.
pub open spec fn plugin_candidates(v: PluginView, c: Seq<CompletionView>) -> bool {
    match v {
        PluginView::InitDeps(f) => c == key_sorted(init_candidates(f)),
        PluginView::Hooks(f) => hook_candidates(c, f),
    }
}

impl Plugin {
    pub open spec fn wf(&self) -> bool {
        match self {
            Plugin::InitDeps(p) => p.wf(),
            Plugin::Hooks(p) => p.wf(),
        }
    }

    /// A fresh init-target indexer.
    pub fn init_deps() -> (r: Plugin)
        ensures
            r.wf(),
            r@ == PluginView::InitDeps(Seq::empty()),
    {
        Plugin::InitDeps(InitDependencyPlugin::new())
    }

    /// A fresh hook indexer.
    pub fn hooks() -> (r: Plugin)
        ensures
            r.wf(),
            r@ == PluginView::Hooks(Seq::empty()),
    {
        Plugin::Hooks(HookPlugin::new())
    }

    pub fn on_file_updated(&mut self, path: String, expansions: &Vec<MacroExpansion>)
        requires
            old(self).wf(),
        ensures
            final(self).wf(),
            final(self)@ == plugin_updated(old(self)@, path@, expansions@),
    {
        match self {
            Plugin::InitDeps(p) => p.on_file_updated(path, expansions),
            Plugin::Hooks(p) => p.on_file_updated(path, expansions),
        }
    }

    pub fn on_file_removed(&mut self, path: &String)
        requires
            old(self).wf(),
        ensures
            final(self).wf(),
            final(self)@ == plugin_removed(old(self)@, path@),
    {
        match self {
            Plugin::InitDeps(p) => p.on_file_removed(path),
            Plugin::Hooks(p) => p.on_file_removed(path),
        }
    }

    pub fn completions(&self, path: &String, position: &Position) -> (r: Option<
        Vec<CompletionItem>,
    >)
        requires
            self.wf(),
        ensures
            r is Some <==> plugin_offers(self@, path@, *position),
            r matches Some(items) ==> plugin_candidates(self@, completions_view(items@)),
    {
        match self {
            Plugin::InitDeps(p) => p.completions(path, position),
            Plugin::Hooks(p) => p.completions(path, position),
        }
    }

    pub fn diagnostics(&self) -> (r: Vec<FileDiagnostics>)
        ensures
            report_view(r@) == plugin_report(self@),
    {
        match self {
            Plugin::InitDeps(p) => p.diagnostics(),
            Plugin::Hooks(p) => p.diagnostics(),
        }
    }
}

/// Adds one file's diagnostics to a report: appended to the file's list if
/// the report has the file, else as a new entry at the end.
pub open spec fn merge_one(
    acc: Seq<(Seq<char>, Seq<DiagnosticView>)>,
    item: (Seq<char>, Seq<DiagnosticView>),
) -> Seq<(Seq<char>, Seq<DiagnosticView>)> {
    match key_index(acc, item.0) {
        Some(k) => acc.update(k, (item.0, acc[k].1 + item.1)),
        None => acc.push(item),
    }
}

pub open spec fn merge_reports(
    acc: Seq<(Seq<char>, Seq<DiagnosticView>)>,
    r: Seq<(Seq<char>, Seq<DiagnosticView>)>,
) -> Seq<(Seq<char>, Seq<DiagnosticView>)>
    decreases r.len(),
{
    if r.len() == 0 {
        acc
    } else {
        merge_one(merge_reports(acc, r.drop_last()), r.last())
    }
}

/// The diagnostics of all plugins, merged by file path in plugin order.
pub open spec fn merged_report(plugins: Seq<PluginView>) -> Seq<(Seq<char>, Seq<DiagnosticView>)>
    decreases plugins.len(),
{
    if plugins.len() == 0 {
        seq![]
    } else {
        merge_reports(merged_report(plugins.drop_last()), plugin_report(plugins.last()))
    }
}

/// The paths of `prev` that `current` has no entry for, in order.
pub open spec fn stale_paths(prev: Seq<Seq<char>>, current: Seq<Seq<char>>) -> Seq<Seq<char>>
    decreases prev.len(),
{
    if prev.len() == 0 {
        seq![]
    } else {
        let rest = stale_paths(prev.drop_last(), current);
        if current.contains(prev.last()) {
            rest
        } else {
            rest.push(prev.last())
        }
    }
}

pub open spec fn report_paths(r: Seq<(Seq<char>, Seq<DiagnosticView>)>) -> Seq<Seq<char>> {
    r.map_values(|e: (Seq<char>, Seq<DiagnosticView>)| e.0)
}

/// The index of the entry for `path` in a report.
fn find_path(acc: &Vec<FileDiagnostics>, path: &String) -> (r: Option<usize>)
    requires
        keys_unique(report_view(acc@)),
    ensures
        match r {
            Some(i) => key_index(report_view(acc@), path@) == Some(i as int),
            None => key_index(report_view(acc@), path@) is None,
        },
{
    let ghost v = report_view(acc@);
    let mut i: usize = 0;
    while i < acc.len()
        invariant
            i <= acc@.len(),
            v == report_view(acc@),
            keys_unique(v),
            forall|k: int| 0 <= k < i ==> #[trigger] v[k].0 != path@,
        decreases acc@.len() - i,
    {
        if acc[i].path == *path {
            assert(v[i as int].0 == path@);
            proof {
                lemma_key_index(v, path@);
            }
            return Some(i);
        }
        assert(v[i as int].0 != path@);
        i = i + 1;
    }
    proof {
        lemma_key_index(v, path@);
    }
    None
}

/// Adds one file's diagnostics to a report.
fn merge_into(acc: &mut Vec<FileDiagnostics>, item: FileDiagnostics)
    requires
        keys_unique(report_view(old(acc)@)),
    ensures
        keys_unique(report_view(final(acc)@)),
        report_view(final(acc)@) == merge_one(
            report_view(old(acc)@),
            (item.path@, diagnostics_view(item.diagnostics@)),
        ),
{
    let ghost v = report_view(acc@);
    let ghost iv = (item.path@, diagnostics_view(item.diagnostics@));
    proof {
        lemma_key_index(v, item.path@);
    }
    match find_path(acc, &item.path) {
        Some(k) => {
            let mut entry = acc.remove(k);
            let mut more = item.diagnostics;
            entry.diagnostics.append(&mut more);
            acc.insert(k, entry);
            proof {
                assert(diagnostics_view(entry.diagnostics@) =~= v[k as int].1 + iv.1);
                assert(report_view(acc@) =~= v.update(k as int, (iv.0, v[k as int].1 + iv.1)));
            }
        },
        None => {
            acc.push(item);
            proof {
                assert(report_view(acc@) =~= v.push(iv));
            }
        },
    }
}

/// The state of the server's index: the plugins, and the paths whose
/// diagnostics were last published.
pub struct State {
    plugins: Vec<Plugin>,
    published: Vec<String>,
}

impl State {
    pub closed spec fn plugins(&self) -> Seq<PluginView> {
        self.plugins@.map_values(|p: Plugin| p@)
    }

    /// The paths that the last round of diagnostics was published for.
    pub closed spec fn published(&self) -> Seq<Seq<char>> {
        texts(self.published@)
    }

    pub closed spec fn wf(&self) -> bool {
        forall|k: int| 0 <= k < self.plugins@.len() ==> (#[trigger] self.plugins@[k]).wf()
    }

    pub fn new(plugins: Vec<Plugin>) -> (r: State)
        requires
            forall|k: int| 0 <= k < plugins@.len() ==> (#[trigger] plugins@[k]).wf(),
        ensures
            r.wf(),
            r.plugins() == plugins@.map_values(|p: Plugin| p@),
            r.published() == Seq::<Seq<char>>::empty(),
    {
        let r = State { plugins, published: Vec::new() };
        assert(r.published() =~= Seq::<Seq<char>>::empty());
        r
    }

    /// Hands the new macro uses of `path` to every plugin.
    pub fn file_updated(&mut self, path: &String, expansions: &Vec<MacroExpansion>)
        requires
            old(self).wf(),
        ensures
            final(self).wf(),
            final(self).plugins() == old(self).plugins().map_values(
                |v: PluginView| plugin_updated(v, path@, expansions@),
            ),
            final(self).published() == old(self).published(),
    {
        let mut done: Vec<Plugin> = Vec::new();
        let ghost start = self.plugins@;
        let mut rest: Vec<Plugin> = Vec::new();
        std::mem::swap(&mut rest, &mut self.plugins);
        let n = rest.len();
        let mut i: usize = 0;
        while i < n
            invariant
                n == start.len(),
                i <= n,
                rest@ == start.subrange(i as int, n as int),
                done@.len() == i,
                forall|k: int| 0 <= k < start.len() ==> (#[trigger] start[k]).wf(),
                forall|k: int| 0 <= k < i ==> (#[trigger] done@[k]).wf(),
                forall|k: int|
                    0 <= k < i ==> #[trigger] done@[k]@ == plugin_updated(
                        start[k]@,
                        path@,
                        expansions@,
                    ),
                self.published@ == old(self).published@,
            decreases n - i,
        {
            let mut p = rest.remove(0);
            assert(p == start[i as int]);
            p.on_file_updated(path.clone(), expansions);
            done.push(p);
            assert(rest@ =~= start.subrange(i + 1, n as int));
            i = i + 1;
        }
        self.plugins = done;
        proof {
            assert(self.plugins() =~= old(self).plugins().map_values(
                |v: PluginView| plugin_updated(v, path@, expansions@),
            ));
        }
    }

    /// Tells every plugin that `path` is gone.
    pub fn file_removed(&mut self, path: &String)
        requires
            old(self).wf(),
        ensures
            final(self).wf(),
            final(self).plugins() == old(self).plugins().map_values(
                |v: PluginView| plugin_removed(v, path@),
            ),
            final(self).published() == old(self).published(),
    {
        let mut done: Vec<Plugin> = Vec::new();
        let ghost start = self.plugins@;
        let mut rest: Vec<Plugin> = Vec::new();
        std::mem::swap(&mut rest, &mut self.plugins);
        let n = rest.len();
        let mut i: usize = 0;
        while i < n
            invariant
                n == start.len(),
                i <= n,
                rest@ == start.subrange(i as int, n as int),
                done@.len() == i,
                forall|k: int| 0 <= k < start.len() ==> (#[trigger] start[k]).wf(),
                forall|k: int| 0 <= k < i ==> (#[trigger] done@[k]).wf(),
                forall|k: int|
                    0 <= k < i ==> #[trigger] done@[k]@ == plugin_removed(start[k]@, path@),
                self.published@ == old(self).published@,
            decreases n - i,
        {
            let mut p = rest.remove(0);
            assert(p == start[i as int]);
            p.on_file_removed(path);
            done.push(p);
            assert(rest@ =~= start.subrange(i + 1, n as int));
            i = i + 1;
        }
        self.plugins = done;
        proof {
            assert(self.plugins() =~= old(self).plugins().map_values(
                |v: PluginView| plugin_removed(v, path@),
            ));
        }
    }

    /// The diagnostics of every plugin, merged by file path: where two
    /// plugins report on one file, their lists are concatenated in plugin
    /// order.
    pub fn diagnostics(&self) -> (r: Vec<FileDiagnostics>)
        ensures
            report_view(r@) == merged_report(self.plugins()),
    {
        let mut all: Vec<FileDiagnostics> = Vec::new();
        let ghost pv = self.plugins();
        let mut i: usize = 0;
        proof {
            assert(report_view(all@) =~= seq![]);
        }
        while i < self.plugins.len()
            invariant
                i <= self.plugins@.len(),
                pv == self.plugins(),
                keys_unique(report_view(all@)),
                report_view(all@) == merged_report(pv.take(i as int)),
            decreases self.plugins@.len() - i,
        {
            let ghost acc0 = report_view(all@);
            let report = self.plugins[i].diagnostics();
            let ghost rv = report_view(report@);
            let mut items = report;
            let total = items.len();
            let mut j: usize = 0;
            let ghost items0 = items@;
            let mut taken: Vec<FileDiagnostics> = Vec::new();
            proof {
                assert(rv.take(0) =~= seq![]);
            }
            while items.len() > 0
                invariant
                    j <= rv.len(),
                    rv == report_view(items0),
                    rv.len() == items0.len(),
                    items0.len() == total,
                    j + items@.len() == items0.len(),
                    items@ == items0.subrange(j as int, items0.len() as int),
                    keys_unique(report_view(all@)),
                    report_view(all@) == merge_reports(acc0, rv.take(j as int)),
                decreases items@.len(),
            {
                let item = items.remove(0);
                proof {
                    assert(item == items0[j as int]);
                    assert(rv.take(j + 1).drop_last() =~= rv.take(j as int));
                    assert(rv.take(j + 1).last() == (item.path@, diagnostics_view(
                        item.diagnostics@,
                    )));
                }
                merge_into(&mut all, item);
                assert(items@ =~= items0.subrange(j + 1, items0.len() as int));
                j = j + 1;
            }
            proof {
                assert(j == rv.len());
                assert(rv.take(j as int) =~= rv);
                assert(pv.take(i + 1).drop_last() =~= pv.take(i as int));
                assert(pv.take(i + 1).last() == self.plugins@[i as int]@);
            }
            i = i + 1;
        }
        proof {
            assert(pv.take(pv.len() as int) =~= pv);
        }
        all
    }

    /// The candidates of the first plugin, in plugin order, that offers
    /// completions at `position` of `path`; none if no plugin does.
    pub fn completions(&self, path: &String, position: &Position) -> (r: Option<
        Vec<CompletionItem>,
    >)
        requires
            self.wf(),
        ensures
            r is None <==> forall|k: int|
                0 <= k < self.plugins().len() ==> !plugin_offers(
                    #[trigger] self.plugins()[k],
                    path@,
                    *position,
                ),
            r matches Some(items) ==> exists|k: int|
                0 <= k < self.plugins().len() && plugin_offers(
                    #[trigger] self.plugins()[k],
                    path@,
                    *position,
                ) && plugin_candidates(self.plugins()[k], completions_view(items@)) && forall|
                    j: int,
                |
                    0 <= j < k ==> !plugin_offers(#[trigger] self.plugins()[j], path@, *position),
    {
        let mut i: usize = 0;
        while i < self.plugins.len()
            invariant
                i <= self.plugins@.len(),
                self.wf(),
                forall|j: int|
                    0 <= j < i ==> !plugin_offers(#[trigger] self.plugins()[j], path@, *position),
            decreases self.plugins@.len() - i,
        {
            assert(self.plugins()[i as int] == self.plugins@[i as int]@);
            match self.plugins[i].completions(path, position) {
                Some(items) => {
                    return Some(items);
                },
                None => {},
            }
            i = i + 1;
        }
        None
    }

    /// Records `current` as the published round and returns the paths that
    /// were published before but have no diagnostics now, whose markers are
    /// to be cleared with an empty list.
    pub fn update_published(&mut self, current: &Vec<FileDiagnostics>) -> (stale: Vec<String>)
        ensures
            texts(stale@) == stale_paths(old(self).published(), report_paths(report_view(current@))),
            final(self).published() == report_paths(report_view(current@)),
            final(self).plugins() == old(self).plugins(),
            final(self).wf() == old(self).wf(),
    {
        let ghost cur = report_paths(report_view(current@));
        let ghost prev = self.published();
        let mut stale: Vec<String> = Vec::new();
        let mut i: usize = 0;
        proof {
            assert(texts(stale@) =~= seq![]);
        }
        while i < self.published.len()
            invariant
                i <= self.published@.len(),
                prev == texts(self.published@),
                cur == report_paths(report_view(current@)),
                texts(stale@) == stale_paths(prev.take(i as int), cur),
            decreases self.published@.len() - i,
        {
            let p = &self.published[i];
            let mut found = false;
            let mut j: usize = 0;
            while j < current.len()
                invariant
                    j <= current@.len(),
                    cur == report_paths(report_view(current@)),
                    found <==> exists|k: int| 0 <= k < j && #[trigger] cur[k] == p@,
                decreases current@.len() - j,
            {
                assert(cur[j as int] == current@[j as int].path@);
                if current[j].path == *p {
                    found = true;
                }
                j = j + 1;
            }
            proof {
                assert(prev.take(i + 1).drop_last() =~= prev.take(i as int));
                assert(prev.take(i + 1).last() == p@);
                assert(found == cur.contains(p@));
            }
            if !found {
                stale.push(p.clone());
            }
            proof {
                assert(texts(stale@) =~= stale_paths(prev.take(i + 1), cur));
            }
            i = i + 1;
        }
        proof {
            assert(prev.take(prev.len() as int) =~= prev);
        }
        let mut now: Vec<String> = Vec::new();
        let mut j: usize = 0;
        while j < current.len()
            invariant
                j <= current@.len(),
                cur == report_paths(report_view(current@)),
                texts(now@) == cur.take(j as int),
            decreases current@.len() - j,
        {
            let ghost before = now@;
            now.push(current[j].path.clone());
            proof {
                assert(cur[j as int] == current@[j as int].path@);
                assert(now@ == before.push(current@[j as int].path));
                assert(texts(now@) =~= texts(before).push(cur[j as int]));
                assert(texts(now@) =~= cur.take(j + 1));
            }
            j = j + 1;
        }
        proof {
            assert(cur.take(cur.len() as int) =~= cur);
        }
        self.published = now;
        stale
    }
}

} // verus!

verus! {

/// The plugin holds each file under a path of its own.
pub open spec fn plugin_view_wf(v: PluginView) -> bool {
    match v {
        PluginView::InitDeps(f) => keys_unique(f),
        PluginView::Hooks(f) => keys_unique(f),
    }
}

/// The plugin knows `name`: a hook that some file defines, or a target that
/// some file declares.
pub open spec fn plugin_knows(v: PluginView, name: Seq<char>) -> bool {
    match v {
        PluginView::InitDeps(f) => init_known(f, name),
        PluginView::Hooks(f) => hook_known(f, name),
    }
}

/// Some file other than `path` gives the plugin the name `name`.
pub open spec fn plugin_knows_elsewhere(v: PluginView, path: Seq<char>, name: Seq<char>) -> bool {
    match v {
        PluginView::InitDeps(f) => exists|i: int, j: int|
            0 <= i < f.len() && f[i].0 != path && 0 <= j < f[i].1.len() && #[trigger] f[i].1[j].name
                == name,
        PluginView::Hooks(f) => exists|i: int, j: int|
            0 <= i < f.len() && f[i].0 != path && 0 <= j < f[i].1.definitions.len()
                && #[trigger] f[i].1.definitions[j] == name,
    }
}

impl State {
    pub proof fn lemma_wf(&self)
        requires
            self.wf(),
        ensures
            forall|k: int|
                0 <= k < self.plugins().len() ==> plugin_view_wf(#[trigger] self.plugins()[k]),
    {
        assert forall|k: int| 0 <= k < self.plugins().len() implies plugin_view_wf(
            #[trigger] self.plugins()[k],
        ) by {
            let p = self.plugins@[k];
            assert(p.wf());
            match p {
                Plugin::InitDeps(q) => q.lemma_wf(),
                Plugin::Hooks(q) => q.lemma_wf(),
            }
        }
    }
}

/// Indexing a file again with the same macro uses changes nothing; and what a
/// plugin holds for a C file after an update is a function of the file's path
/// and macro uses alone, whatever it held before.
pub proof fn lemma_reindex_idempotent(v: PluginView, path: Seq<char>, es: Seq<MacroExpansion>)
    requires
        plugin_view_wf(v),
    ensures
        plugin_view_wf(plugin_updated(v, path, es)),
        plugin_updated(plugin_updated(v, path, es), path, es) == plugin_updated(v, path, es),
        is_c_source(path) ==> match plugin_updated(v, path, es) {
            PluginView::InitDeps(f) => key_index(f, path) matches Some(k) && f[k].1
                == spec_init_file(es, path),
            PluginView::Hooks(f) => key_index(f, path) matches Some(k) && f[k].1 == spec_hook_file(
                es,
            ),
        },
{
    if is_c_source(path) {
        match v {
            PluginView::InitDeps(f) => lemma_put_twice(f, path, spec_init_file(es, path)),
            PluginView::Hooks(f) => lemma_put_twice(f, path, spec_hook_file(es)),
        }
    }
}

/// Inside a completion region of an indexed file, the plugin offers at least
/// one candidate, provided, for the hook plugin, that some hook is defined.
pub proof fn lemma_completions_in_region(
    v: PluginView,
    path: Seq<char>,
    pos: Position,
    c: Seq<CompletionView>,
)
    requires
        plugin_view_wf(v),
        plugin_offers(v, path, pos),
        plugin_candidates(v, c),
        v matches PluginView::Hooks(f) ==> exists|n: Seq<char>| hook_known(f, n),
    ensures
        c.len() > 0,
{
    match v {
        PluginView::InitDeps(f) => {
            let i = key_index(f, path)->0;
            lemma_key_index(f, path);
            lemma_init_candidates_len(f, i);
            lemma_key_sorted_len(init_candidates(f));
        },
        PluginView::Hooks(f) => {
            let n = choose|n: Seq<char>| hook_known(f, n);
            let labels = c.map_values(|x: CompletionView| x.label);
            assert(labels.contains(n));
        },
    }
}

/// Once a file is dropped, no plugin offers completions in it or reports on
/// it, and a name stays known only where another file gives it.
pub proof fn lemma_removed_file(v: PluginView, path: Seq<char>, pos: Position, name: Seq<char>)
    requires
        plugin_view_wf(v),
    ensures
        !plugin_offers(plugin_removed(v, path), path, pos),
        forall|k: int|
            0 <= k < plugin_report(plugin_removed(v, path)).len() ==> (#[trigger] plugin_report(
                plugin_removed(v, path),
            )[k]).0 != path,
        plugin_knows(plugin_removed(v, path), name) <==> plugin_knows_elsewhere(v, path, name),
{
    match v {
        PluginView::InitDeps(f) => {
            let r = files_removed(f, path);
            lemma_files_removed(f, path);
            lemma_key_index(r, path);
            lemma_init_report_paths(r, r);
            if init_known(r, name) {
                let (i, j) = choose|i: int, j: int|
                    0 <= i < r.len() && 0 <= j < r[i].1.len() && #[trigger] r[i].1[j].name == name;
                let i2 = choose|i2: int| 0 <= i2 < f.len() && f[i2] == r[i];
                assert(f[i2].1[j].name == name);
            }
            if plugin_knows_elsewhere(v, path, name) {
                let (i, j) = choose|i: int, j: int|
                    0 <= i < f.len() && f[i].0 != path && 0 <= j < f[i].1.len()
                        && #[trigger] f[i].1[j].name == name;
                assert(r.contains(f[i]));
                let k = choose|k: int| 0 <= k < r.len() && r[k] == f[i];
                assert(r[k].1[j].name == name);
            }
        },
        PluginView::Hooks(f) => {
            let r = files_removed(f, path);
            lemma_files_removed(f, path);
            lemma_key_index(r, path);
            lemma_hook_report_paths(r, r);
            if hook_known(r, name) {
                let (i, j) = choose|i: int, j: int|
                    0 <= i < r.len() && 0 <= j < r[i].1.definitions.len()
                        && #[trigger] r[i].1.definitions[j] == name;
                let i2 = choose|i2: int| 0 <= i2 < f.len() && f[i2] == r[i];
                assert(f[i2].1.definitions[j] == name);
            }
            if plugin_knows_elsewhere(v, path, name) {
                let (i, j) = choose|i: int, j: int|
                    0 <= i < f.len() && f[i].0 != path && 0 <= j < f[i].1.definitions.len()
                        && #[trigger] f[i].1.definitions[j] == name;
                assert(r.contains(f[i]));
                let k = choose|k: int| 0 <= k < r.len() && r[k] == f[i];
                assert(r[k].1.definitions[j] == name);
            }
        },
    }
}

/// A path is to be cleared exactly when it was published in the previous
/// round and has no diagnostics in this one.
pub proof fn lemma_stale_paths(prev: Seq<Seq<char>>, cur: Seq<Seq<char>>, x: Seq<char>)
    ensures
        stale_paths(prev, cur).contains(x) <==> prev.contains(x) && !cur.contains(x),
    decreases prev.len(),
{
    if prev.len() > 0 {
        let rest = prev.drop_last();
        lemma_stale_paths(rest, cur, x);
        let s = stale_paths(prev, cur);
        let sr = stale_paths(rest, cur);
        if prev.contains(x) && !cur.contains(x) {
            let i = choose|i: int| 0 <= i < prev.len() && prev[i] == x;
            if i < prev.len() - 1 {
                assert(rest[i] == x);
                let k = choose|k: int| 0 <= k < sr.len() && sr[k] == x;
                if !cur.contains(prev.last()) {
                    assert(s[k] == x);
                }
            } else {
                assert(s[s.len() - 1] == x);
            }
        }
        if s.contains(x) {
            let k = choose|k: int| 0 <= k < s.len() && s[k] == x;
            if k < sr.len() {
                assert(sr[k] == x);
                let i = choose|i: int| 0 <= i < rest.len() && rest[i] == x;
                assert(prev[i] == x);
            } else {
                assert(prev[prev.len() - 1] == x);
            }
        }
    }
}

} // verus!

verus! {

/// The operations that every indexer offers the server.
pub trait LspPlugin {
    spec fn plugin_wf(&self) -> bool;

    /// Indexes `path` anew from its macro uses.
    fn on_file_updated(&mut self, path: String, expansions: &Vec<MacroExpansion>)
        requires
            old(self).plugin_wf(),
        ensures
            final(self).plugin_wf(),
    ;

    /// Forgets `path`.
    fn on_file_removed(&mut self, path: &String)
        requires
            old(self).plugin_wf(),
        ensures
            final(self).plugin_wf(),
    ;

    /// The candidates at `position` of `path`, or none where the plugin has
    /// nothing to offer there.
    fn completions(&self, path: &String, position: &Position) -> Option<Vec<CompletionItem>>
        requires
            self.plugin_wf(),
    ;

    /// The plugin's diagnostics, by file.
    fn diagnostics(&self) -> Vec<FileDiagnostics>;
}

impl LspPlugin for HookPlugin {
    open spec fn plugin_wf(&self) -> bool {
        self.wf()
    }

    fn on_file_updated(&mut self, path: String, expansions: &Vec<MacroExpansion>) {
        HookPlugin::on_file_updated(self, path, expansions)
    }

    fn on_file_removed(&mut self, path: &String) {
        HookPlugin::on_file_removed(self, path)
    }

    fn completions(&self, path: &String, position: &Position) -> Option<Vec<CompletionItem>> {
        HookPlugin::completions(self, path, position)
    }

    fn diagnostics(&self) -> Vec<FileDiagnostics> {
        HookPlugin::diagnostics(self)
    }
}

impl LspPlugin for InitDependencyPlugin {
    open spec fn plugin_wf(&self) -> bool {
        self.wf()
    }

    fn on_file_updated(&mut self, path: String, expansions: &Vec<MacroExpansion>) {
        InitDependencyPlugin::on_file_updated(self, path, expansions)
    }

    fn on_file_removed(&mut self, path: &String) {
        InitDependencyPlugin::on_file_removed(self, path)
    }

    fn completions(&self, path: &String, position: &Position) -> Option<Vec<CompletionItem>> {
        InitDependencyPlugin::completions(self, path, position)
    }

    fn diagnostics(&self) -> Vec<FileDiagnostics> {
        InitDependencyPlugin::diagnostics(self)
    }
}

} // verus!

verus! {

/// Whether a macro of this name is one that some indexer reads: the hook
/// definition and run macros and the init-target macro.
pub fn is_convention_macro(name: &String) -> (r: bool)
    ensures
        r == (name@ == crate::hooks::hook_macro() || name@ == crate::hooks::hook_run_macro()
            || name@ == crate::init::init_target_macro()),
{
    let hook = String::from_str("HOOK");
    let hook_run = String::from_str("HOOK_RUN");
    let target = String::from_str("INIT_TARGET");
    proof {
        reveal_strlit("HOOK");
        reveal_strlit("HOOK_RUN");
        reveal_strlit("INIT_TARGET");
        assert(hook@ =~= crate::hooks::hook_macro());
        assert(hook_run@ =~= crate::hooks::hook_run_macro());
        assert(target@ =~= crate::init::init_target_macro());
    }
    *name == hook || *name == hook_run || *name == target
}

} // verus!
