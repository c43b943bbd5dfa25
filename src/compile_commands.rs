use vstd::prelude::*;

use crate::store::{key_index, FileStore};
use crate::text::texts;

verus! {

/// The words that `shell_words::split` makes of a command line, or none
/// where it fails.
pub uninterp spec fn shell_split_of(s: Seq<char>) -> Option<Seq<Seq<char>>>;

/// Relies on `shell_words::split`: the words of a command line, split and
/// unquoted as a POSIX shell does; it fails only where a quote is left open.
#[verifier::external_body]
fn split_command(cmd: &String) -> (r: Option<Vec<String>>)
    ensures
        match r {
            Some(w) => shell_split_of(cmd@) == Some(texts(w@)),
            None => shell_split_of(cmd@) is None,
        },
{
    shell_words::split(cmd).ok()
}

/// One record of a compilation database: the file, and its compiler
/// invocation as an argument list or as a shell command line.
#[derive(Debug)]
pub struct CompileCommandEntry {
    pub file: String,
    pub arguments: Option<Vec<String>>,
    pub command: Option<String>,
}

/// The words without the first one, the compiler itself.
pub open spec fn skip_first(s: Seq<Seq<char>>) -> Seq<Seq<char>> {
    if s.len() == 0 {
        s
    } else {
        s.drop_first()
    }
}

/// The compiler arguments of a record: its argument list, else the words of
/// its command line, without the compiler; none where neither is given or the
/// command line does not split.
pub open spec fn entry_arguments(e: CompileCommandEntry) -> Seq<Seq<char>> {
    match e.arguments {
        Some(a) => skip_first(texts(a@)),
        None => match e.command {
            Some(c) => match shell_split_of(c@) {
                Some(w) => skip_first(w),
                None => seq![],
            },
            None => seq![],
        },
    }
}

fn drop_first_word(v: Vec<String>) -> (r: Vec<String>)
    ensures
        texts(r@) == skip_first(texts(v@)),
{
    let ghost before = v@;
    let mut w = v;
    if w.len() > 0 {
        w.remove(0);
        assert(texts(w@) =~= texts(before).drop_first());
    }
    w
}

impl CompileCommandEntry {
    /// The record's file with its compiler arguments.
    pub fn into_arguments(self) -> (r: (String, Vec<String>))
        ensures
            r.0@ == self.file@,
            texts(r.1@) == entry_arguments(self),
    {
        let ghost e = self;
        let args = match self.arguments {
            Some(arguments) => drop_first_word(arguments),
            None => match self.command {
                Some(cmd) => match split_command(&cmd) {
                    Some(words) => drop_first_word(words),
                    None => {
                        let v: Vec<String> = Vec::new();
                        assert(texts(v@) =~= seq![]);
                        v
                    },
                },
                None => {
                    let v: Vec<String> = Vec::new();
                    assert(texts(v@) =~= seq![]);
                    v
                },
            },
        };
        (self.file, args)
    }
}

/// One file's compiler arguments.
#[derive(Debug)]
pub struct Arguments {
    pub args: Vec<String>,
}

impl View for Arguments {
    type V = Seq<Seq<char>>;

    open spec fn view(&self) -> Seq<Seq<char>> {
        texts(self.args@)
    }
}

/// The table after the record for `file` is set to `args`; a later record
/// for a file replaces an earlier one.
pub open spec fn table_insert(
    t: Seq<(Seq<char>, Seq<Seq<char>>)>,
    file: Seq<char>,
    args: Seq<Seq<char>>,
) -> Seq<(Seq<char>, Seq<Seq<char>>)> {
    match key_index(t, file) {
        Some(i) => t.update(i, (file, args)),
        None => t.push((file, args)),
    }
}

/// The table of the records, in order.
pub open spec fn table_of(es: Seq<CompileCommandEntry>) -> Seq<(Seq<char>, Seq<Seq<char>>)>
    decreases es.len(),
{
    if es.len() == 0 {
        seq![]
    } else {
        table_insert(table_of(es.drop_last()), es.last().file@, entry_arguments(es.last()))
    }
}

/// A copy of a list of strings.
pub fn clone_words(v: &Vec<String>) -> (r: Vec<String>)
    ensures
        texts(r@) == texts(v@),
{
    let mut out: Vec<String> = Vec::new();
    let mut i: usize = 0;
    while i < v.len()
        invariant
            i <= v@.len(),
            texts(out@) == texts(v@).take(i as int),
        decreases v@.len() - i,
    {
        let ghost before = out@;
        out.push(v[i].clone());
        proof {
            assert(texts(out@) =~= texts(before).push(v@[i as int]@));
            assert(texts(out@) =~= texts(v@).take(i + 1));
        }
        i = i + 1;
    }
    proof {
        assert(texts(v@).take(v@.len() as int) =~= texts(v@));
    }
    out
}

/// The arguments used where no record exists for a file.
pub fn default_clang_args() -> (r: Vec<String>)
    ensures
        texts(r@) == seq!["-Iinclude"@, "-std=gnu23"@],
{
    let mut v: Vec<String> = Vec::new();
    v.push(String::from_str("-Iinclude"));
    v.push(String::from_str("-std=gnu23"));
    assert(texts(v@) =~= seq!["-Iinclude"@, "-std=gnu23"@]);
    v
}

/// The compiler arguments of each file of a project.
pub struct CompileCommands {
    root: String,
    entries: FileStore<Arguments>,
    default_args: Vec<String>,
}

impl CompileCommands {
    /// The files with records, with their arguments.
    pub closed spec fn entries(&self) -> Seq<(Seq<char>, Seq<Seq<char>>)> {
        self.entries@
    }

    pub closed spec fn default_args(&self) -> Seq<Seq<char>> {
        texts(self.default_args@)
    }

    pub closed spec fn root(&self) -> Seq<char> {
        self.root@
    }

    pub closed spec fn wf(&self) -> bool {
        self.entries.wf()
    }

    /// The table of a compilation database's records, whose file paths the
    /// caller has already made canonical.
    pub fn from_entries(
        root: String,
        records: Vec<CompileCommandEntry>,
        default_args: Vec<String>,
    ) -> (r: CompileCommands)
        ensures
            r.wf(),
            r.root() == root@,
            r.default_args() == texts(default_args@),
            r.entries() == table_of(records@),
    {
        let mut entries: FileStore<Arguments> = FileStore::new();
        let ghost all = records@;
        let mut rest = records;
        let total = rest.len();
        let mut i: usize = 0;
        proof {
            assert(all.take(0) =~= seq![]);
        }
        while rest.len() > 0
            invariant
                entries.wf(),
                total == all.len(),
                i + rest@.len() == total,
                rest@ == all.subrange(i as int, total as int),
                entries@ == table_of(all.take(i as int)),
            decreases rest@.len(),
        {
            let record = rest.remove(0);
            proof {
                assert(record == all[i as int]);
                assert(all.take(i + 1).drop_last() =~= all.take(i as int));
                assert(all.take(i + 1).last() == record);
            }
            let (file, args) = record.into_arguments();
            entries.insert(file, Arguments { args });
            assert(rest@ =~= all.subrange(i + 1, total as int));
            i = i + 1;
        }
        proof {
            assert(all.take(total as int) =~= all);
        }
        CompileCommands { root, entries, default_args }
    }

    /// The arguments recorded for `file`, a canonical path, or the default
    /// arguments where there is no record for it.
    pub fn args_for(&self, file: &String) -> (r: Vec<String>)
        requires
            self.wf(),
        ensures
            texts(r@) == match key_index(self.entries(), file@) {
                Some(i) => self.entries()[i].1,
                None => self.default_args(),
            },
    {
        match self.entries.get(file) {
            Some(a) => clone_words(&a.args),
            None => clone_words(&self.default_args),
        }
    }
}

} // verus!
