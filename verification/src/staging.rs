//! Packing and installing the tool for its snapshot cases: what is computed
//! around the commands and the file system.
use crate::path::{extension, has_extension};
use crate::snapshots::{ascending, content_at, normalize_lines, unix_lines, view_result, Tree};
use crate::text::{copy, decimal, join, joined, list_has, push_decimal, same, texts};
use vstd::prelude::*;

verus! {

// ---------------------------------------------------------------------------
// The staged package
// ---------------------------------------------------------------------------

/// What staging reads of the tracked package manifest.
#[derive(Debug)]
pub struct Manifest {
    /// The version, where it is a string.
    pub version: Option<String>,
    /// The names of the optional dependencies, where they are an object.
    pub optional: Option<Vec<String>>,
    /// The files to publish, where they are an array; entries that are no
    /// strings are missing.
    pub files: Option<Vec<Option<String>>>,
}

/// What is staged.
#[derive(Debug)]
pub struct Staged {
    /// The optional dependencies and their versions.
    pub optional: Vec<(String, String)>,
    /// The paths to copy.
    pub files: Vec<String>,
}

/// Every optional dependency at the version of the package itself.
pub open spec fn pinned(names: Seq<Seq<char>>, version: Seq<char>) -> Seq<(Seq<char>, Seq<char>)> {
    names.map_values(|name: Seq<char>| (name, version))
}

/// The first `n` entries, where all of them are strings.
pub open spec fn entry_texts(entries: Seq<Option<String>>, n: int) -> Option<Seq<Seq<char>>>
    decreases n,
{
    if n <= 0 {
        Some(seq![])
    } else {
        match (entry_texts(entries, n - 1), entries[n - 1]) {
            (Some(before), Some(text)) => Some(before.push(text@)),
            _ => None,
        }
    }
}

proof fn lemma_entries_missing(entries: Seq<Option<String>>, k: int, n: int)
    requires
        0 <= k <= n,
        entry_texts(entries, k) is None,
    ensures
        entry_texts(entries, n) is None,
    decreases n - k,
{
    if k < n {
        lemma_entries_missing(entries, k, n - 1);
    }
}

fn collect_entries(entries: &Vec<Option<String>>) -> (result: Option<Vec<String>>)
    ensures
        crate::text::maybe_texts(result) == entry_texts(entries@, entries@.len() as int),
{
    let mut result: Vec<String> = Vec::new();
    assert(texts(result@) =~= Seq::empty());
    let mut n: usize = 0;
    while n < entries.len()
        invariant
            n <= entries@.len(),
            entry_texts(entries@, n as int) == Some(texts(result@)),
        decreases entries.len() - n,
    {
        match &entries[n] {
            Some(text) => {
                let ghost before = result@;
                result.push(copy(text.as_str()));
                assert(texts(result@) =~= texts(before).push(text@));
            },
            None => {
                proof {
                    lemma_entries_missing(entries@, n + 1, entries@.len() as int);
                }
                return None;
            },
        }
        n += 1;
    }
    Some(result)
}

fn pin(names: &Vec<String>, version: &str) -> (result: Vec<(String, String)>)
    ensures
        crate::number::pairs_of(result@) == pinned(texts(names@), version@),
{
    let ghost goal = pinned(texts(names@), version@);
    let mut result: Vec<(String, String)> = Vec::new();
    let mut i: usize = 0;
    while i < names.len()
        invariant
            i <= names@.len(),
            goal == pinned(texts(names@), version@),
            goal.len() == names@.len(),
            crate::number::pairs_of(result@) == goal.take(i as int),
        decreases names.len() - i,
    {
        assert(texts(names@)[i as int] == names@[i as int]@);
        let ghost before = result@;
        result.push((copy(names[i].as_str()), copy(version)));
        assert(crate::number::pairs_of(result@) =~= crate::number::pairs_of(before).push(goal[i as int]));
        i += 1;
        assert(crate::number::pairs_of(result@) =~= goal.take(i as int));
    }
    assert(goal.take(i as int) =~= goal);
    result
}

/// What is staged of a package: its files with the readme and the license, and
/// its optional dependencies at its own version.
pub open spec fn staged(manifest: Manifest) -> Result<(Seq<(Seq<char>, Seq<char>)>, Seq<Seq<char>>), Seq<char>> {
    match manifest.version {
        None => Err("tracked package.json has no string version"@),
        Some(version) => match manifest.optional {
            None => Err("tracked package.json has no optionalDependencies object"@),
            Some(names) => match manifest.files {
                None => Err("tracked package.json has no files array"@),
                Some(entries) => match entry_texts(entries@, entries@.len() as int) {
                    None => Err("package files entries must be strings"@),
                    Some(files) => Ok(
                        (pinned(texts(names@), version@), files + seq!["README.md"@, "LICENSE"@]),
                    ),
                },
            },
        },
    }
}

/// What is staged of a package.
pub fn stage_manifest(manifest: &Manifest) -> (result: Result<Staged, String>)
    ensures
        match staged(*manifest) {
            Ok((optional, files)) => result matches Ok(found) && crate::number::pairs_of(found.optional@) == optional
                && texts(found.files@) == files,
            Err(model) => result matches Err(message) && message@ == model,
        },
{
    let version = match &manifest.version {
        Some(version) => version,
        None => {
            return Err("tracked package.json has no string version".to_owned());
        },
    };
    let names = match &manifest.optional {
        Some(names) => names,
        None => {
            return Err("tracked package.json has no optionalDependencies object".to_owned());
        },
    };
    let entries = match &manifest.files {
        Some(entries) => entries,
        None => {
            return Err("tracked package.json has no files array".to_owned());
        },
    };
    match collect_entries(entries) {
        None => Err("package files entries must be strings".to_owned()),
        Some(mut files) => {
            let ghost before = files@;
            files.push("README.md".to_owned());
            files.push("LICENSE".to_owned());
            assert(texts(files@) =~= texts(before) + seq!["README.md"@, "LICENSE"@]);
            Ok(Staged { optional: pin(names, version.as_str()), files })
        },
    }
}

// ---------------------------------------------------------------------------
// Packing
// ---------------------------------------------------------------------------

/// Whether the path names a tarball.
pub fn is_tarball(path: &str) -> (result: bool)
    ensures
        result == (extension(path@) == Some("tgz"@)),
{
    has_extension(path, "tgz")
}

/// Those of the first `n` paths that were not there before.
pub open spec fn created(before: Seq<Seq<char>>, after: Seq<Seq<char>>, n: int) -> Seq<Seq<char>>
    decreases n,
{
    if n <= 0 {
        seq![]
    } else if before.contains(after[n - 1]) {
        created(before, after, n - 1)
    } else {
        created(before, after, n - 1).push(after[n - 1])
    }
}

fn collect_created(before: &Vec<String>, after: &Vec<String>) -> (result: Vec<String>)
    ensures
        texts(result@) == created(texts(before@), texts(after@), after@.len() as int),
{
    let mut result: Vec<String> = Vec::new();
    assert(texts(result@) =~= Seq::empty());
    let mut n: usize = 0;
    while n < after.len()
        invariant
            n <= after@.len(),
            texts(result@) == created(texts(before@), texts(after@), n as int),
        decreases after.len() - n,
    {
        assert(texts(after@)[n as int] == after@[n as int]@);
        if !list_has(before, after[n].as_str()) {
            let ghost known = result@;
            result.push(copy(after[n].as_str()));
            assert(texts(result@) =~= texts(known).push(after@[n as int]@));
        }
        n += 1;
    }
    result
}

/// The tarball that packing created, where it created exactly one.
pub open spec fn packed(package: Seq<char>, before: Seq<Seq<char>>, after: Seq<Seq<char>>) -> Result<
    Seq<char>,
    Seq<char>,
> {
    let made = created(before, after, after.len() as int);
    if made.len() == 1 {
        Ok(made[0])
    } else {
        Err("npm pack in "@ + package + " created "@ + decimal(made.len()) + " tarballs, expected one"@)
    }
}

/// The tarball that packing a package created, from the tarballs before and
/// after.
pub fn npm_pack(package: &str, before: &Vec<String>, after: &Vec<String>) -> (result: Result<String, String>)
    ensures
        view_result(result) == packed(package@, texts(before@), texts(after@)),
{
    assert(texts(after@).len() == after@.len());
    let made = collect_created(before, after);
    assert(texts(made@).len() == made@.len());
    if made.len() == 1 {
        assert(texts(made@)[0] == made@[0]@);
        return Ok(copy(made[0].as_str()));
    }
    let mut message = "npm pack in ".to_owned();
    message.append(package);
    message.append(" created ");
    push_decimal(&mut message, made.len() as u64);
    message.append(" tarballs, expected one");
    Err(message)
}

/// The program that runs npm.
pub fn npm_command(windows: bool) -> (result: &'static str)
    ensures
        result@ == (if windows {
            "npm.cmd"@
        } else {
            "npm"@
        }),
{
    if windows {
        "npm.cmd"
    } else {
        "npm"
    }
}

/// The components of the installed program's path below the installation.
pub fn installed_bin(windows: bool) -> (result: Vec<String>)
    ensures
        texts(result@) == seq![
            "node_modules"@,
            ".bin"@,
            if windows {
                "tw-migrate.cmd"@
            } else {
                "tw-migrate"@
            },
        ],
{
    let mut result: Vec<String> = Vec::new();
    result.push("node_modules".to_owned());
    result.push(".bin".to_owned());
    if windows {
        result.push("tw-migrate.cmd".to_owned());
    } else {
        result.push("tw-migrate".to_owned());
    }
    assert(texts(result@) =~= seq![
        "node_modules"@,
        ".bin"@,
        if windows {
            "tw-migrate.cmd"@
        } else {
            "tw-migrate"@
        },
    ]);
    result
}

/// Why a command of the setup failed.
pub fn setup_failure(operation: &str, status: &str, command: &str, stdout: &str, stderr: &str) -> (result: String)
    ensures
        result@ == operation@ + " failed with "@ + status@ + "\ncommand: "@ + command@ + "\nstdout:\n"@ + stdout@
            + "\nstderr:\n"@ + stderr@,
{
    let mut message = copy(operation);
    message.append(" failed with ");
    message.append(status);
    message.append("\ncommand: ");
    message.append(command);
    message.append("\nstdout:\n");
    message.append(stdout);
    message.append("\nstderr:\n");
    message.append(stderr);
    message
}

// ---------------------------------------------------------------------------
// Capturing a workspace
// ---------------------------------------------------------------------------

/// A path from its components, with `/` between them.
pub fn normalized_relative(components: &Vec<String>) -> (result: String)
    ensures
        result@ == joined(texts(components@), "/"@),
{
    join(components, "/")
}

/// What stands at a path.
#[derive(Clone, Copy, PartialEq, Eq, Structural, Debug)]
pub enum EntryKind {
    Directory,
    File,
    Link,
    Other,
}

/// What is done with an entry of a workspace.
#[derive(Clone, Copy, PartialEq, Eq, Structural, Debug)]
pub enum EntryAction {
    Skip,
    Descend,
    ReadFile,
    ReadLink,
    Reject,
}

/// What is done with an entry: everything but version control is captured.
pub open spec fn action_for(components: Seq<Seq<char>>, kind: EntryKind) -> EntryAction {
    if components.len() > 0 && components[0] == ".git"@ {
        EntryAction::Skip
    } else {
        match kind {
            EntryKind::Directory => EntryAction::Descend,
            EntryKind::File => EntryAction::ReadFile,
            EntryKind::Link => EntryAction::ReadLink,
            EntryKind::Other => EntryAction::Reject,
        }
    }
}

/// What is done with an entry, by its path below the workspace.
pub fn entry_action(components: &Vec<String>, kind: EntryKind) -> (result: EntryAction)
    ensures
        result == action_for(texts(components@), kind),
{
    assert(texts(components@).len() == components@.len());
    if components.len() > 0 {
        assert(texts(components@)[0] == components@[0]@);
        if same(components[0].as_str(), ".git") {
            return EntryAction::Skip;
        }
    }
    match kind {
        EntryKind::Directory => EntryAction::Descend,
        EntryKind::File => EntryAction::ReadFile,
        EntryKind::Link => EntryAction::ReadLink,
        EntryKind::Other => EntryAction::Reject,
    }
}

/// Captures a file, with every line end as `\n`.
pub fn capture_file(tree: &mut Tree, components: &Vec<String>, content: &str)
    requires
        ascending(old(tree).entries@),
    ensures
        ascending(final(tree).entries@),
        content_at(final(tree).entries@, joined(texts(components@), "/"@), unix_lines(content@)),
        forall|other: Seq<char>, text: Seq<char>|
            other != joined(texts(components@), "/"@) ==> #[trigger] content_at(final(tree).entries@, other, text)
                == content_at(old(tree).entries@, other, text),
{
    tree.insert(normalized_relative(components), normalize_lines(content));
}

/// Captures a symbolic link by its target.
pub fn capture_link(tree: &mut Tree, components: &Vec<String>, target: &Vec<String>)
    requires
        ascending(old(tree).entries@),
    ensures
        ascending(final(tree).entries@),
        content_at(
            final(tree).entries@,
            joined(texts(components@), "/"@),
            "<symlink:"@ + joined(texts(target@), "/"@) + ">"@,
        ),
        forall|other: Seq<char>, text: Seq<char>|
            other != joined(texts(components@), "/"@) ==> #[trigger] content_at(final(tree).entries@, other, text)
                == content_at(old(tree).entries@, other, text),
{
    let mut content = "<symlink:".to_owned();
    content.append(normalized_relative(target).as_str());
    content.append(">");
    tree.insert(normalized_relative(components), content);
}

/// The name of the directory that a case is given.
pub fn unique_dir(label: &str, process: u32, id: u64) -> (result: String)
    ensures
        result@ == label@ + "-"@ + decimal(process as nat) + "-"@ + decimal(id as nat),
{
    let mut name = copy(label);
    name.append("-");
    push_decimal(&mut name, process as u64);
    name.append("-");
    push_decimal(&mut name, id);
    name
}

} // verus!
