//! What the client of a mount keeps between two runs, and what it tells of
//! a run.

use vstd::prelude::*;
use vstd::string::{StrSliceExecFns, StringExecFns};

use crate::change_log::{ChangeLog, ChangeType};
use crate::change_log::tree_view;
use crate::cid::{cid_text, Cid, CidView};
use crate::sorted_map::{in_prefix, lemma_in_prefix_all, lemma_in_prefix_step, sorted_keys, SortedMap};
use crate::text::name_lt;
use crate::manifest::Manifest;

verus! {

/// The state of a working directory: the mount's identifier and manifest.
#[derive(Debug, PartialEq, Eq)]
pub struct OnDiskState {
    pub cid: Cid,
    pub manifest: Manifest,
}

/// The root that was pushed last.
#[derive(Debug, PartialEq, Eq)]
pub struct PreviousCid {
    pub cid: Cid,
}

/// The outcome of taking the changes of a working directory into the mount.
#[derive(Debug, PartialEq, Eq)]
pub struct AddOutput {
    pub previous_cid: Cid,
    pub cid: Cid,
}

/// The outcome of asking what has changed.
#[derive(Debug, PartialEq, Eq)]
pub struct StatOutput {
    pub change_log: ChangeLog,
}

/// A change log that can be shown.
#[derive(Debug, PartialEq, Eq)]
pub struct DisplayableChangeLog(pub ChangeLog);

/// The word for a change, in the colour of the change.
pub open spec fn change_label(change: ChangeType) -> Seq<char> {
    match change {
        ChangeType::Base => "\x1b[0;32mBase\x1b[0m"@,
        ChangeType::Added { .. } => "\x1b[0;32mAdded\x1b[0m"@,
        ChangeType::Modified { .. } => "\x1b[0;33mModified\x1b[0m"@,
        ChangeType::Removed { .. } => "\x1b[0;31mRemoved\x1b[0m"@,
    }
}

/// The line that shows a change of a file: nothing where the file is as
/// the mount has it.
pub open spec fn change_line(path: Seq<char>, change: ChangeType) -> Seq<char> {
    if change is Base {
        Seq::empty()
    } else {
        path + ": "@ + change_label(change) + "\n"@
    }
}

/// The lines of the first `count` files of a change log.
pub open spec fn change_lines(log: ChangeLog, count: int) -> Seq<char>
    decreases count,
{
    if count <= 0 {
        Seq::empty()
    } else {
        change_lines(log, count - 1) + change_line(log.spec_path(count - 1), log@[log.spec_path(count - 1)].1)
    }
}

/// What is told where the two identifiers of an outcome are the same, and
/// what stands between them where they differ.
pub open spec fn add_words(previous: Seq<char>, now: Seq<char>, same: bool) -> Seq<char> {
    if same {
        "No changes to add"@
    } else {
        previous + " -> "@ + now
    }
}

/// The word for a change, in the colour of the change.
pub fn change_to_string(change: ChangeType) -> (r: String)
    ensures
        r@ == change_label(change),
{
    match change {
        ChangeType::Base => "\x1b[0;32mBase\x1b[0m".to_string(),
        ChangeType::Added { .. } => "\x1b[0;32mAdded\x1b[0m".to_string(),
        ChangeType::Modified { .. } => "\x1b[0;33mModified\x1b[0m".to_string(),
        ChangeType::Removed { .. } => "\x1b[0;31mRemoved\x1b[0m".to_string(),
    }
}

/// The lines of the files of a change log that are not as the mount has them.
pub fn render_changes(log: &ChangeLog) -> (r: String)
    ensures
        r@ == change_lines(*log, log.spec_len() as int),
{
    let n = log.len();
    let mut out = String::new();
    let mut i: usize = 0;
    while i < n
        invariant
            i <= n,
            n == log.spec_len(),
            out@ == change_lines(*log, i as int),
        decreases n - i,
    {
        let path = log.path_at(i);
        let (_, change) = log.entry_at(i);
        match change {
            ChangeType::Base => {
                proof {
                    assert(out@ + Seq::<char>::empty() =~= out@);
                }
            },
            _ => {
                let ghost before = out@;
                out.append(path.as_str());
                out.append(": ");
                out.append(change_to_string(change).as_str());
                out.append("\n");
                proof {
                    assert(out@ =~= before + change_line(path@, change));
                }
            },
        }
        i = i + 1;
    }
    out
}

impl AddOutput {
    /// What is told of the outcome.
    pub fn to_string(&self) -> (r: String)
        ensures
            r@ == add_words(cid_text(self.previous_cid@), cid_text(self.cid@), self.previous_cid@ == self.cid@),
    {
        if self.previous_cid.same(&self.cid) {
            "No changes to add".to_string()
        } else {
            let mut out = self.previous_cid.to_string();
            out.append(" -> ");
            out.append(self.cid.to_string().as_str());
            out
        }
    }
}

impl StatOutput {
    /// What is told of the outcome: the lines of the changes, or that there
    /// are none.
    pub fn to_string(&self) -> (r: String)
        ensures
            r@ == (if change_lines(self.change_log, self.change_log.spec_len() as int).len() == 0 {
                "No changes"@
            } else {
                change_lines(self.change_log, self.change_log.spec_len() as int)
            }),
    {
        let lines = render_changes(&self.change_log);
        if lines.as_str().unicode_len() == 0 {
            "No changes".to_string()
        } else {
            lines
        }
    }
}

impl DisplayableChangeLog {
    /// The lines of the changes.
    pub fn to_string(&self) -> (r: String)
        ensures
            r@ == change_lines(self.0, self.0.spec_len() as int),
    {
        render_changes(&self.0)
    }
}

/// What a file of the working directory is to the mount.
#[derive(Debug, PartialEq, Eq)]
pub enum FileKind {
    /// The schema of the directory with these names.
    Schema(Vec<String>),
    /// The object of the file with these names.
    Object(Vec<String>),
    /// The payload of the file with these names.
    Regular(Vec<String>),
}

/// The name of the file to which an object file belongs: what stands
/// between the dot at the start and the `.json` at the end of its name.
pub open spec fn object_target(name: Seq<char>) -> Option<Seq<char>> {
    if name.len() >= 6 && name[0] == '.' && name.skip(name.len() - 5) == ".json"@ {
        Some(name.subrange(1, name.len() - 5))
    } else {
        None
    }
}

/// What a file with the names `names` is to the mount: the schema of its
/// directory where its name is `.schema`; the object of a file beside its
/// directory where it lies in a directory `.obj` and is named as an object
/// file is; else a payload.
pub open spec fn file_kind(names: Seq<Seq<char>>) -> (int, Seq<Seq<char>>) {
    let n = names.len() as int;
    if n >= 1 && names[n - 1] == ".schema"@ {
        (0, names.take(n - 1))
    } else if n >= 2 && names[n - 2] == ".obj"@ && object_target(names[n - 1]) is Some {
        (1, names.take(n - 2).push(object_target(names[n - 1])->0))
    } else {
        (2, names)
    }
}

/// The view of a kind of file.
pub open spec fn file_kind_view(kind: FileKind) -> (int, Seq<Seq<char>>) {
    match kind {
        FileKind::Schema(dir) => (0, crate::path::names_view(dir@)),
        FileKind::Object(target) => (1, crate::path::names_view(target@)),
        FileKind::Regular(names) => (2, crate::path::names_view(names@)),
    }
}

/// The turn in which a file of a kind is taken into the mount: schemas
/// first, so that they hold for what follows; then payloads; then objects,
/// which need their files.
pub open spec fn pass_of_kind(kind: (int, Seq<Seq<char>>)) -> int {
    if kind.0 == 0 {
        0
    } else if kind.0 == 2 {
        1
    } else {
        2
    }
}

/// The turn in which a file of a kind is taken into the mount.
pub fn pass_of(kind: &FileKind) -> (r: u8)
    ensures
        r as int == pass_of_kind(file_kind_view(*kind)),
{
    match kind {
        FileKind::Schema(_) => 0,
        FileKind::Regular(_) => 1,
        FileKind::Object(_) => 2,
    }
}

/// The name of the file to which an object file belongs.
pub fn object_file_target(name: &str) -> (r: Option<String>)
    ensures
        match r {
            Some(target) => object_target(name@) == Some(target@),
            None => object_target(name@) is None,
        },
{
    let n = name.unicode_len();
    if n < 6 {
        return None;
    }
    if name.get_char(0) != '.' {
        return None;
    }
    let tail = name.substring_char(n - 5, n);
    proof {
        assert(name@.subrange(n as int - 5, n as int) =~= name@.skip(n as int - 5));
    }
    if !crate::text::names_equal(tail, ".json") {
        return None;
    }
    Some(name.substring_char(1, n - 5).to_string())
}

/// What a file with the names `names` is to the mount.
pub fn classify(names: &Vec<String>) -> (r: FileKind)
    ensures
        file_kind_view(r) == file_kind(crate::path::names_view(names@)),
{
    let ghost all = crate::path::names_view(names@);
    let n = names.len();
    if n >= 1 && crate::text::names_equal(names[n - 1].as_str(), ".schema") {
        let mut dir: Vec<String> = Vec::new();
        let mut i: usize = 0;
        while i < n - 1
            invariant
                i <= n - 1,
                n == names@.len(),
                dir@.len() == i,
                forall|j: int| 0 <= j < i ==> (#[trigger] dir@[j])@ == names@[j]@,
            decreases n - i,
        {
            dir.push(names[i].clone());
            i = i + 1;
        }
        proof {
            assert(crate::path::names_view(dir@) =~= all.take(n as int - 1));
        }
        return FileKind::Schema(dir);
    }
    if n >= 2 && crate::text::names_equal(names[n - 2].as_str(), ".obj") {
        match object_file_target(names[n - 1].as_str()) {
            Some(target) => {
                let mut out: Vec<String> = Vec::new();
                let mut i: usize = 0;
                while i < n - 2
                    invariant
                        i <= n - 2,
                        n == names@.len(),
                        out@.len() == i,
                        forall|j: int| 0 <= j < i ==> (#[trigger] out@[j])@ == names@[j]@,
                    decreases n - i,
                {
                    out.push(names[i].clone());
                    i = i + 1;
                }
                let ghost t = target@;
                out.push(target);
                proof {
                    assert(crate::path::names_view(out@) =~= all.take(n as int - 2).push(t));
                }
                return FileKind::Object(out);
            },
            None => {},
        }
    }
    let mut out: Vec<String> = Vec::new();
    let mut i: usize = 0;
    while i < n
        invariant
            i <= n,
            n == names@.len(),
            out@.len() == i,
            forall|j: int| 0 <= j < i ==> (#[trigger] out@[j])@ == names@[j]@,
        decreases n - i,
    {
        out.push(names[i].clone());
        i = i + 1;
    }
    proof {
        assert(crate::path::names_view(out@) =~= all);
    }
    FileKind::Regular(out)
}

/// The names of the file at a path of the working directory, which starts
/// without a separator: those of the path under the root.
pub open spec fn relative_names(path: Seq<char>) -> Seq<Seq<char>> {
    crate::path::path_names(seq!['/'] + path)
}

/// Whether a file of the mount is to be fetched into the working directory:
/// it has a payload, and the working directory lacks the file or holds
/// another payload under its path.
pub open spec fn to_fetch(wanted: Map<Seq<char>, CidView>, found: Map<Seq<char>, CidView>, path: Seq<char>) -> bool {
    &&& wanted.contains_key(path)
    &&& wanted[path] != crate::cid::default_cid()
    &&& !(found.contains_key(path) && found[path] == wanted[path])
}

/// Whether a file of the working directory is to be removed: the mount
/// lacks it, and it is a payload, not a schema or an object.
pub open spec fn to_remove(wanted: Map<Seq<char>, CidView>, found: Map<Seq<char>, CidView>, path: Seq<char>) -> bool {
    &&& found.contains_key(path)
    &&& !wanted.contains_key(path)
    &&& file_kind(relative_names(path)).0 == 2
}

/// Whether a list of paths holds a path.
pub open spec fn holds_path(paths: Seq<String>, path: Seq<char>) -> bool {
    exists|i: int| 0 <= i < paths.len() && (#[trigger] paths[i])@ == path
}

/// Whether the paths of a list rise from entry to entry.
pub open spec fn paths_rise(paths: Seq<String>) -> bool {
    forall|i: int, j: int| 0 <= i < j < paths.len() ==> name_lt((#[trigger] paths[i])@, (#[trigger] paths[j])@)
}

/// What of a mount's files is to be fetched, and what of the working
/// directory's files is to be removed.
pub struct PullPlan {
    pub fetch: Vec<String>,
    pub remove: Vec<String>,
}

/// Whether a file of the working directory is a payload.
pub fn is_regular(path: &str) -> (r: bool)
    ensures
        r == (file_kind(relative_names(path@)).0 == 2),
{
    let mut rooted = "/".to_string();
    rooted.append(path);
    proof {
        reveal_strlit("/");
        assert("/"@ =~= seq!['/']);
        assert(rooted@ =~= seq!['/'] + path@);
    }
    let names = crate::path::clean_path(rooted.as_str());
    match classify(&names) {
        FileKind::Regular(_) => true,
        FileKind::Schema(_) => false,
        FileKind::Object(_) => false,
    }
}

/// What is to be fetched from a mount whose files are `wanted` into a working
/// directory whose files are `found`, and what is to be removed there: each
/// list holds exactly the paths that are to be fetched, or removed, once
/// each and in the order of the paths.
pub fn pull_plan(wanted: &SortedMap<Cid>, found: &SortedMap<Cid>) -> (r: PullPlan)
    ensures
        forall|path: Seq<char>| holds_path(r.fetch@, path) <==> #[trigger] to_fetch(tree_view(wanted@), tree_view(found@), path),
        forall|path: Seq<char>| holds_path(r.remove@, path) <==> #[trigger] to_remove(tree_view(wanted@), tree_view(found@), path),
        paths_rise(r.fetch@),
        paths_rise(r.remove@),
{
    let ghost w = tree_view(wanted@);
    let ghost f = tree_view(found@);
    let mut fetch: Vec<String> = Vec::new();
    let n = wanted.len();
    let mut i: usize = 0;
    proof {
        if n > 0 {
            lemma_in_prefix_step(wanted.seq(), 0);
        }
    }
    while i < n
        invariant
            i <= n,
            n == wanted.seq().len(),
            sorted_keys(wanted.seq()),
            w == tree_view(wanted@),
            f == tree_view(found@),
            forall|path: Seq<char>| #[trigger] holds_path(fetch@, path) ==> in_prefix(wanted.seq(), i as int, path) && to_fetch(w, f, path),
            forall|path: Seq<char>| #[trigger] in_prefix(wanted.seq(), i as int, path) && to_fetch(w, f, path) ==> holds_path(fetch@, path),
            paths_rise(fetch@),
        decreases n - i,
    {
        proof {
            lemma_in_prefix_step(wanted.seq(), i as int);
        }
        let key = wanted.key_at(i);
        let cid = wanted.value_at(i);
        let held = match found.get(key.as_str()) {
            Some(c) => c.same(cid),
            None => false,
        };
        let ghost before = fetch@;
        if !cid.is_default() && !held {
            fetch.push(key.clone());
            proof {
                assert(fetch@[before.len() as int]@ == key@);
                assert forall|path: Seq<char>| #[trigger] holds_path(fetch@, path) implies in_prefix(wanted.seq(), i as int + 1, path) && to_fetch(w, f, path) by {
                    let j = choose|j: int| 0 <= j < fetch@.len() && (#[trigger] fetch@[j])@ == path;
                    if j < before.len() {
                        assert(fetch@[j] == before[j]);
                        assert(holds_path(before, path));
                    }
                }
                assert forall|path: Seq<char>| #[trigger] in_prefix(wanted.seq(), i as int + 1, path) && to_fetch(w, f, path) implies holds_path(fetch@, path) by {
                    if in_prefix(wanted.seq(), i as int, path) {
                        assert(holds_path(before, path));
                        let j = choose|j: int| 0 <= j < before.len() && (#[trigger] before[j])@ == path;
                        assert(fetch@[j] == before[j]);
                    }
                }
                assert forall|a: int, b: int| 0 <= a < b < fetch@.len() implies name_lt((#[trigger] fetch@[a])@, (#[trigger] fetch@[b])@) by {
                    if b < before.len() {
                        assert(fetch@[a] == before[a] && fetch@[b] == before[b]);
                    } else {
                        assert(fetch@[a] == before[a]);
                        assert(holds_path(before, before[a]@));
                        assert(in_prefix(wanted.seq(), i as int, before[a]@));
                    }
                }
            }
        } else {
            proof {
                assert(!to_fetch(w, f, key@));
                assert forall|path: Seq<char>| #[trigger] in_prefix(wanted.seq(), i as int + 1, path) && to_fetch(w, f, path) implies holds_path(fetch@, path) by {
                    assert(in_prefix(wanted.seq(), i as int, path));
                }
            }
        }
        i = i + 1;
    }
    proof {
        lemma_in_prefix_all(wanted.seq());
        assert forall|path: Seq<char>| holds_path(fetch@, path) <==> #[trigger] to_fetch(w, f, path) by {
            if to_fetch(w, f, path) {
                assert(wanted@.contains_key(path));
                assert(in_prefix(wanted.seq(), n as int, path));
            }
            if holds_path(fetch@, path) {
                assert(in_prefix(wanted.seq(), n as int, path));
            }
        }
    }
    let mut remove: Vec<String> = Vec::new();
    let m = found.len();
    let mut k: usize = 0;
    proof {
        if m > 0 {
            lemma_in_prefix_step(found.seq(), 0);
        }
    }
    while k < m
        invariant
            k <= m,
            m == found.seq().len(),
            sorted_keys(found.seq()),
            w == tree_view(wanted@),
            f == tree_view(found@),
            forall|path: Seq<char>| #[trigger] holds_path(remove@, path) ==> in_prefix(found.seq(), k as int, path) && to_remove(w, f, path),
            forall|path: Seq<char>| #[trigger] in_prefix(found.seq(), k as int, path) && to_remove(w, f, path) ==> holds_path(remove@, path),
            paths_rise(remove@),
        decreases m - k,
    {
        proof {
            lemma_in_prefix_step(found.seq(), k as int);
        }
        let key = found.key_at(k);
        let ghost before = remove@;
        if !wanted.contains_key(key.as_str()) && is_regular(key.as_str()) {
            remove.push(key.clone());
            proof {
                assert(remove@[before.len() as int]@ == key@);
                assert forall|path: Seq<char>| #[trigger] holds_path(remove@, path) implies in_prefix(found.seq(), k as int + 1, path) && to_remove(w, f, path) by {
                    let j = choose|j: int| 0 <= j < remove@.len() && (#[trigger] remove@[j])@ == path;
                    if j < before.len() {
                        assert(remove@[j] == before[j]);
                        assert(holds_path(before, path));
                    }
                }
                assert forall|path: Seq<char>| #[trigger] in_prefix(found.seq(), k as int + 1, path) && to_remove(w, f, path) implies holds_path(remove@, path) by {
                    if in_prefix(found.seq(), k as int, path) {
                        assert(holds_path(before, path));
                        let j = choose|j: int| 0 <= j < before.len() && (#[trigger] before[j])@ == path;
                        assert(remove@[j] == before[j]);
                    }
                }
                assert forall|a: int, b: int| 0 <= a < b < remove@.len() implies name_lt((#[trigger] remove@[a])@, (#[trigger] remove@[b])@) by {
                    if b < before.len() {
                        assert(remove@[a] == before[a] && remove@[b] == before[b]);
                    } else {
                        assert(remove@[a] == before[a]);
                        assert(holds_path(before, before[a]@));
                        assert(in_prefix(found.seq(), k as int, before[a]@));
                    }
                }
            }
        } else {
            proof {
                assert(!to_remove(w, f, key@));
                assert forall|path: Seq<char>| #[trigger] in_prefix(found.seq(), k as int + 1, path) && to_remove(w, f, path) implies holds_path(remove@, path) by {
                    assert(in_prefix(found.seq(), k as int, path));
                }
            }
        }
        k = k + 1;
    }
    proof {
        lemma_in_prefix_all(found.seq());
        assert forall|path: Seq<char>| holds_path(remove@, path) <==> #[trigger] to_remove(w, f, path) by {
            if to_remove(w, f, path) {
                assert(found@.contains_key(path));
                assert(in_prefix(found.seq(), m as int, path));
            }
            if holds_path(remove@, path) {
                assert(in_prefix(found.seq(), m as int, path));
            }
        }
    }
    PullPlan { fetch, remove }
}

} // verus!
