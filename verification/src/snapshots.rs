//! Snapshot documents of command-line runs: how a workspace's changes and a
//! program's output are written down so that they do not depend on the machine.
use crate::json::{json_quoted, quote_json};
use crate::path::{is_absolute, segments_of};
use crate::text::{
    begins, decimal, from_chars, is_at, is_before, precedes, push_decimal, replace, replaced, same, split, stands_at,
    texts, to_chars, Separator,
};
use vstd::prelude::*;
use vstd::utf8::*;

verus! {

// ---------------------------------------------------------------------------
// Cases
// ---------------------------------------------------------------------------

/// The directories of a running case.
pub struct CaseContext<'a> {
    pub workspace: &'a str,
    pub home: &'a str,
    pub install_root: &'a str,
}

/// The setup of a case that needs none.
pub fn default_setup(context: &CaseContext<'_>) -> (result: Result<(), String>)
    ensures
        result is Ok,
{
    Ok(())
}

pub open spec fn view_result(result: Result<String, String>) -> Result<Seq<char>, Seq<char>> {
    match result {
        Ok(text) => Ok(text@),
        Err(error) => Err(error@),
    }
}

pub open spec fn view_unit(result: Result<(), String>) -> Result<(), Seq<char>> {
    match result {
        Ok(_) => Ok(()),
        Err(error) => Err(error@),
    }
}

/// What a case that was set up ends in: the document, where neither the steps
/// nor the verification failed; both failures, where both did.
pub open spec fn case_result(run: Result<Seq<char>, Seq<char>>, verify: Result<(), Seq<char>>) -> Result<
    Seq<char>,
    Seq<char>,
> {
    match (run, verify) {
        (Ok(document), Ok(_)) => Ok(document),
        (Err(error), Ok(_)) => Err(error),
        (Ok(_), Err(error)) => Err(error),
        (Err(run_error), Err(verify_error)) => Err(
            run_error + "\nverification/teardown also failed: "@ + verify_error,
        ),
    }
}

/// What a case ends in once its directory was removed. A failure of the case
/// itself hides one of the removal.
pub open spec fn cleaned_result(
    result: Result<Seq<char>, Seq<char>>,
    cleanup: Result<(), Seq<char>>,
    case_root: Seq<char>,
) -> Result<Seq<char>, Seq<char>> {
    match (result, cleanup) {
        (Ok(document), Ok(_)) => Ok(document),
        (Ok(_), Err(error)) => Err("clean up "@ + case_root + ": "@ + error),
        (Err(error), _) => Err(error),
    }
}

/// The result of a case from the results of its parts. The steps and the
/// verification count only where the setup succeeded.
pub fn run_case_with(
    setup: Result<(), String>,
    run: Result<String, String>,
    verify: Result<(), String>,
    cleanup: Result<(), String>,
    case_root: &str,
) -> (result: Result<String, String>)
    ensures
        view_result(result) == cleaned_result(
            match view_unit(setup) {
                Ok(_) => case_result(view_result(run), view_unit(verify)),
                Err(error) => Err(error),
            },
            view_unit(cleanup),
            case_root@,
        ),
{
    let outcome = match setup {
        Err(error) => Err(error),
        Ok(_) => match (run, verify) {
            (Ok(document), Ok(_)) => Ok(document),
            (Err(error), Ok(_)) => Err(error),
            (Ok(_), Err(error)) => Err(error),
            (Err(run_error), Err(verify_error)) => {
                let mut message = run_error;
                message.append("\nverification/teardown also failed: ");
                message.append(verify_error.as_str());
                Err(message)
            },
        },
    };
    match (outcome, cleanup) {
        (Ok(document), Ok(_)) => Ok(document),
        (Ok(_), Err(error)) => {
            let mut message = "clean up ".to_owned();
            message.append(case_root);
            message.append(": ");
            message.append(error.as_str());
            Err(message)
        },
        (Err(error), _) => Err(error),
    }
}

/// The result of a case that has nothing to verify behind its steps.
pub fn run_case(setup: Result<(), String>, run: Result<String, String>, cleanup: Result<(), String>, case_root: &str) -> (
result: Result<String, String>)
    ensures
        view_result(result) == cleaned_result(
            match view_unit(setup) {
                Ok(_) => view_result(run),
                Err(error) => Err(error),
            },
            view_unit(cleanup),
            case_root@,
        ),
{
    run_case_with(setup, run, Ok(()), cleanup, case_root)
}

/// Whether a fixture can be run: it has steps and a manifest.
pub fn check_fixture(case_name: &str, has_steps: bool, has_manifest: bool) -> (result: Result<(), String>)
    ensures
        view_unit(result) == (if !has_steps {
            Err("fixture "@ + case_name@ + " has no steps"@)
        } else if !has_manifest {
            Err("fixture "@ + case_name@ + " must contain package.json"@)
        } else {
            Ok(())
        }),
{
    if !has_steps {
        let mut message = "fixture ".to_owned();
        message.append(case_name);
        message.append(" has no steps");
        return Err(message);
    }
    if !has_manifest {
        let mut message = "fixture ".to_owned();
        message.append(case_name);
        message.append(" must contain package.json");
        return Err(message);
    }
    Ok(())
}

/// The platform package of an operating system and architecture.
pub open spec fn platform_of(os: Seq<char>, arch: Seq<char>) -> Option<Seq<char>> {
    if os == "macos"@ && arch == "aarch64"@ {
        Some("darwin-arm64"@)
    } else if os == "macos"@ && arch == "x86_64"@ {
        Some("darwin-x64"@)
    } else if os == "linux"@ && arch == "aarch64"@ {
        Some("linux-arm64-gnu"@)
    } else if os == "linux"@ && arch == "x86_64"@ {
        Some("linux-x64-gnu"@)
    } else if os == "windows"@ && arch == "x86_64"@ {
        Some("win32-x64-msvc"@)
    } else {
        None
    }
}

/// The platform package of an operating system and architecture.
pub fn current_platform(os: &str, arch: &str) -> (result: Result<&'static str, String>)
    ensures
        match platform_of(os@, arch@) {
            Some(platform) => result matches Ok(found) && found@ == platform,
            None => result matches Err(message) && message@ == "unsupported snapshot platform: "@ + os@ + "-"@
                + arch@,
        },
{
    if same(os, "macos") && same(arch, "aarch64") {
        Ok("darwin-arm64")
    } else if same(os, "macos") && same(arch, "x86_64") {
        Ok("darwin-x64")
    } else if same(os, "linux") && same(arch, "aarch64") {
        Ok("linux-arm64-gnu")
    } else if same(os, "linux") && same(arch, "x86_64") {
        Ok("linux-x64-gnu")
    } else if same(os, "windows") && same(arch, "x86_64") {
        Ok("win32-x64-msvc")
    } else {
        let mut message = "unsupported snapshot platform: ".to_owned();
        message.append(os);
        message.append("-");
        message.append(arch);
        Err(message)
    }
}

/// The file name of the native addon for a platform.
pub fn current_addon(os: &str, arch: &str) -> (result: Result<String, String>)
    ensures
        match platform_of(os@, arch@) {
            Some(platform) => result matches Ok(name) && name@ == "tw-migrate."@ + platform + ".node"@,
            None => result matches Err(message) && message@ == "unsupported snapshot platform: "@ + os@ + "-"@
                + arch@,
        },
{
    match current_platform(os, arch) {
        Ok(platform) => {
            let mut name = "tw-migrate.".to_owned();
            name.append(platform);
            name.append(".node");
            Ok(name)
        },
        Err(message) => Err(message),
    }
}

/// Whether a fixture's working directory stays inside the workspace: it is
/// relative and never goes up.
pub open spec fn stays_inside(relative: Seq<char>) -> bool {
    &&& !is_absolute(relative)
    &&& forall|i: int| 0 <= i < segments_of(relative).len() ==> #[trigger] segments_of(relative)[i] != ".."@
}

/// Refuses a working directory that leaves the workspace.
pub fn validate_cwd(relative: &str) -> (result: Result<(), String>)
    ensures
        view_unit(result) == (if stays_inside(relative@) {
            Ok(())
        } else {
            Err("fixture cwd must stay within the workspace: "@ + relative@)
        }),
{
    let mut inside = !(relative.unicode_len() > 0 && relative.get_char(0) == '/');
    let segments = split(relative, Separator::Char('/'));
    assert(texts(segments@).len() == segments@.len());
    let mut i: usize = 0;
    while i < segments.len()
        invariant
            i <= segments@.len(),
            texts(segments@) == segments_of(relative@),
            inside == (!is_absolute(relative@) && forall|k: int|
                0 <= k < i ==> #[trigger] segments_of(relative@)[k] != ".."@),
        decreases segments.len() - i,
    {
        assert(segments_of(relative@)[i as int] == segments@[i as int]@);
        if same(segments[i].as_str(), "..") {
            inside = false;
        }
        i += 1;
    }
    if inside {
        Ok(())
    } else {
        let mut message = "fixture cwd must stay within the workspace: ".to_owned();
        message.append(relative);
        Err(message)
    }
}

// ---------------------------------------------------------------------------
// Output
// ---------------------------------------------------------------------------

/// The roots that every case shares.
pub struct Suite {
    pub repo_root: String,
    pub install_root: String,
}

/// A text with `\r\n` and `\r` as `\n`.
pub open spec fn unix_lines(text: Seq<char>) -> Seq<char> {
    replaced(replaced(text, "\r\n"@, "\n"@), "\r"@, "\n"@)
}

/// Writes every line end as `\n`.
pub fn normalize_lines(text: &str) -> (result: String)
    ensures
        result@ == unix_lines(text@),
{
    replace(replace(text, "\r\n", "\n").as_str(), "\r", "\n")
}

/// A Windows path without its verbatim prefix, if it has one.
pub open spec fn without_verbatim(path: Seq<char>) -> Option<Seq<char>> {
    if begins(path, "\\\\?\\UNC\\"@) {
        Some("\\\\"@ + path.skip("\\\\?\\UNC\\"@.len() as int))
    } else if begins(path, "\\\\?\\"@) {
        Some(path.skip("\\\\?\\"@.len() as int))
    } else {
        None
    }
}

fn strip_verbatim(path: &str) -> (result: Option<String>)
    ensures
        match without_verbatim(path@) {
            Some(text) => result matches Some(found) && found@ == text,
            None => result is None,
        },
{
    let chars = to_chars(path);
    let unc = to_chars("\\\\?\\UNC\\");
    let verbatim = to_chars("\\\\?\\");
    if is_at(&chars, &unc, 0) {
        let mut text = "\\\\".to_owned();
        let rest = from_chars(&chars, unc.len(), chars.len());
        assert(rest@ =~= path@.skip(unc@.len() as int));
        text.append(rest.as_str());
        return Some(text);
    }
    if is_at(&chars, &verbatim, 0) {
        let rest = from_chars(&chars, verbatim.len(), chars.len());
        assert(rest@ =~= path@.skip(verbatim@.len() as int));
        return Some(rest);
    }
    None
}

/// The prefix-free forms of the first `n` spellings that have a prefix.
pub open spec fn stripped_forms(list: Seq<Seq<char>>, n: int) -> Seq<Seq<char>>
    decreases n,
{
    if n <= 0 {
        seq![]
    } else {
        let rest = stripped_forms(list, n - 1);
        match without_verbatim(list[n - 1]) {
            Some(text) => rest.push(text),
            None => rest,
        }
    }
}

/// The first `n` spellings with forward slashes.
pub open spec fn slashed_forms(list: Seq<Seq<char>>, n: int) -> Seq<Seq<char>>
    decreases n,
{
    if n <= 0 {
        seq![]
    } else {
        slashed_forms(list, n - 1).push(replaced(list[n - 1], "\\"@, "/"@))
    }
}

/// Puts `text` behind every spelling that is at least as long.
pub open spec fn inserted_by_length(list: Seq<Seq<char>>, text: Seq<char>) -> Seq<Seq<char>>
    decreases list.len(),
{
    if list.len() == 0 || encode_utf8(list.last()).len() >= encode_utf8(text).len() {
        list.push(text)
    } else {
        inserted_by_length(list.drop_last(), text).push(list.last())
    }
}

/// The spellings from the longest to the shortest; equal lengths keep their
/// order.
pub open spec fn longest_first(list: Seq<Seq<char>>) -> Seq<Seq<char>>
    decreases list.len(),
{
    if list.len() == 0 {
        seq![]
    } else {
        inserted_by_length(longest_first(list.drop_last()), list.last())
    }
}

/// The list without texts that equal their predecessor.
pub open spec fn without_repeats(list: Seq<Seq<char>>) -> Seq<Seq<char>>
    decreases list.len(),
{
    if list.len() == 0 {
        seq![]
    } else {
        let rest = without_repeats(list.drop_last());
        if rest.len() > 0 && rest.last() == list.last() {
            rest
        } else {
            rest.push(list.last())
        }
    }
}

/// Every way in which a program may spell a root, the longest first.
pub open spec fn spellings(root: Seq<char>, canonical: Option<Seq<char>>) -> Seq<Seq<char>> {
    let given = match canonical {
        Some(path) => seq![root, path],
        None => seq![root],
    };
    let plain = given + stripped_forms(given, given.len() as int);
    let all = plain + slashed_forms(plain, plain.len() as int);
    without_repeats(longest_first(all))
}

fn insert_by_length(list: &mut Vec<String>, text: String)
    ensures
        texts(final(list)@) == inserted_by_length(texts(old(list)@), text@),
{
    let ghost before = list@;
    let ghost added = text;
    let mut k: usize = list.len();
    while k > 0 && list[k - 1].as_str().as_bytes().len() < text.as_str().as_bytes().len()
        invariant
            k <= list@.len(),
            list@ == before,
            added == text,
            forall|j: int|
                k <= j < list@.len() ==> encode_utf8((#[trigger] list@[j])@).len() < encode_utf8(text@).len(),
        decreases k,
    {
        k -= 1;
    }
    proof {
        lemma_inserted_by_length(texts(before), added@, k as int);
    }
    list.insert(k, text);
    assert(texts(list@) =~= texts(before).insert(k as int, added@));
}

proof fn lemma_inserted_by_length(list: Seq<Seq<char>>, text: Seq<char>, k: int)
    requires
        0 <= k <= list.len(),
        k > 0 ==> encode_utf8(list[k - 1]).len() >= encode_utf8(text).len(),
        forall|j: int| k <= j < list.len() ==> encode_utf8(#[trigger] list[j]).len() < encode_utf8(text).len(),
    ensures
        inserted_by_length(list, text) == list.insert(k, text),
    decreases list.len(),
{
    if k == list.len() {
        assert(list.insert(k, text) =~= list.push(text));
    } else {
        let rest = list.drop_last();
        lemma_inserted_by_length(rest, text, k);
        assert(list.insert(k, text) =~= rest.insert(k, text).push(list.last()));
    }
}

fn find_spellings(root: &str, canonical: Option<&String>) -> (result: Vec<String>)
    ensures
        texts(result@) == spellings(
            root@,
            match canonical {
                Some(path) => Some(path@),
                None => None,
            },
        ),
{
    let mut list: Vec<String> = Vec::new();
    list.push(root.to_owned());
    if let Some(path) = canonical {
        list.push(path.clone());
        assert(texts(list@) =~= seq![root@, path@]);
    } else {
        assert(texts(list@) =~= seq![root@]);
    }
    let ghost given = texts(list@);
    let count = list.len();
    let mut i: usize = 0;
    assert(given + stripped_forms(given, 0) =~= given);
    while i < count
        invariant
            i <= count == given.len(),
            count <= list@.len(),
            texts(list@) == given + stripped_forms(given, i as int),
        decreases count - i,
    {
        assert(texts(list@)[i as int] == list@[i as int]@);
        assert(texts(list@)[i as int] == given[i as int]);
        let ghost before = texts(list@);
        if let Some(text) = strip_verbatim(list[i].as_str()) {
            let ghost form = text@;
            list.push(text);
            assert(texts(list@) =~= before.push(form));
        }
        i += 1;
        assert(texts(list@) =~= given + stripped_forms(given, i as int));
    }
    let ghost plain = texts(list@);
    let count = list.len();
    i = 0;
    assert(plain + slashed_forms(plain, 0) =~= plain);
    while i < count
        invariant
            i <= count == plain.len(),
            count <= list@.len(),
            texts(list@) == plain + slashed_forms(plain, i as int),
        decreases count - i,
    {
        assert(texts(list@)[i as int] == list@[i as int]@);
        assert(texts(list@)[i as int] == plain[i as int]);
        let ghost before = texts(list@);
        let text = replace(list[i].as_str(), "\\", "/");
        let ghost form = text@;
        list.push(text);
        assert(texts(list@) =~= before.push(form));
        i += 1;
        assert(texts(list@) =~= plain + slashed_forms(plain, i as int));
    }
    let ghost all = texts(list@);
    let mut ordered: Vec<String> = Vec::new();
    assert(texts(ordered@) =~= seq![]);
    i = 0;
    while i < list.len()
        invariant
            i <= list@.len(),
            all == texts(list@),
            texts(ordered@) == longest_first(all.take(i as int)),
        decreases list.len() - i,
    {
        assert(all.take(i + 1).drop_last() =~= all.take(i as int));
        assert(all[i as int] == list@[i as int]@);
        insert_by_length(&mut ordered, list[i].clone());
        i += 1;
    }
    assert(all.take(i as int) =~= all);
    let ghost sorted_all = texts(ordered@);
    let mut result: Vec<String> = Vec::new();
    assert(texts(result@) =~= seq![]);
    i = 0;
    while i < ordered.len()
        invariant
            i <= ordered@.len(),
            sorted_all == texts(ordered@),
            texts(result@) == without_repeats(sorted_all.take(i as int)),
        decreases ordered.len() - i,
    {
        assert(sorted_all.take(i + 1).drop_last() =~= sorted_all.take(i as int));
        assert(sorted_all[i as int] == ordered@[i as int]@);
        let ghost before = texts(result@);
        let repeated = result.len() > 0 && same(result[result.len() - 1].as_str(), ordered[i].as_str());
        if result.len() > 0 {
            assert(texts(result@).last() == result@.last()@);
        }
        if !repeated {
            result.push(ordered[i].clone());
            assert(texts(result@) =~= before.push(sorted_all[i as int]));
        }
        i += 1;
    }
    assert(sorted_all.take(i as int) =~= sorted_all);
    result
}

/// `text` without the slashes at its start.
pub open spec fn without_leading_slashes(text: Seq<char>) -> Seq<char>
    decreases text.len(),
{
    if text.len() > 0 && (text[0] == '/' || text[0] == '\\') {
        without_leading_slashes(text.drop_first())
    } else {
        text
    }
}

fn trim_slashes(text: &str) -> (result: String)
    ensures
        result@ == without_leading_slashes(text@),
{
    let chars = to_chars(text);
    let mut i: usize = 0;
    assert(text@.skip(0) =~= text@);
    while i < chars.len() && (chars[i] == '/' || chars[i] == '\\')
        invariant
            chars@ == text@,
            i <= chars@.len(),
            without_leading_slashes(text@.skip(i as int)) == without_leading_slashes(text@),
        decreases chars.len() - i,
    {
        assert(text@.skip(i as int).drop_first() =~= text@.skip(i + 1));
        i += 1;
    }
    let rest = from_chars(&chars, i, chars.len());
    assert(rest@ =~= text@.skip(i as int));
    rest
}

/// `text` with one spelling of a root replaced by its marker, as a file URL and
/// on its own.
pub open spec fn marked(text: Seq<char>, spelling: Seq<char>, marker: Seq<char>) -> Seq<char> {
    replaced(
        replaced(text, "file:///"@ + without_leading_slashes(spelling), "file:"@ + marker),
        spelling,
        marker,
    )
}

/// `text` with the first `n` spellings replaced.
pub open spec fn marked_all(text: Seq<char>, list: Seq<Seq<char>>, marker: Seq<char>, n: int) -> Seq<char>
    decreases n,
{
    if n <= 0 {
        text
    } else {
        marked(marked_all(text, list, marker, n - 1), list[n - 1], marker)
    }
}

/// The resolved path of a root, where it is known.
pub open spec fn canonical_of(known: Seq<(String, String)>, root: Seq<char>, i: int) -> Option<Seq<char>>
    decreases known.len() - i,
{
    if i < 0 || i >= known.len() {
        None
    } else if known[i].0@ == root {
        Some(known[i].1@)
    } else {
        canonical_of(known, root, i + 1)
    }
}

pub open spec fn with_root_marked(
    text: Seq<char>,
    known: Seq<(String, String)>,
    root: Seq<char>,
    marker: Seq<char>,
) -> Seq<char> {
    let list = spellings(root, canonical_of(known, root, 0));
    marked_all(text, list, marker, list.len() as int)
}

fn mark_root(text: String, known: &Vec<(String, String)>, root: &str, marker: &str) -> (result: String)
    ensures
        result@ == with_root_marked(text@, known@, root@, marker@),
{
    let mut canonical: Option<&String> = None;
    let mut i: usize = 0;
    while i < known.len()
        invariant_except_break
            i <= known@.len(),
            canonical is None,
            canonical_of(known@, root@, i as int) == canonical_of(known@, root@, 0),
        ensures
            canonical_of(known@, root@, 0) == (match canonical {
                Some(path) => Some(path@),
                None => None,
            }),
        decreases known.len() - i,
    {
        if same(known[i].0.as_str(), root) {
            canonical = Some(&known[i].1);
            break ;
        }
        i += 1;
    }
    let list = find_spellings(root, canonical);
    let ghost models = texts(list@);
    assert(models.len() == list@.len());
    let ghost first_text = text@;
    let mut normalized = text;
    let mut n: usize = 0;
    while n < list.len()
        invariant
            n <= list@.len(),
            models == texts(list@),
            normalized@ == marked_all(first_text, models, marker@, n as int),
        decreases list.len() - n,
    {
        assert(models[n as int] == list@[n as int]@);
        let mut url = "file:///".to_owned();
        url.append(trim_slashes(list[n].as_str()).as_str());
        let mut file_marker = "file:".to_owned();
        file_marker.append(marker);
        normalized = replace(normalized.as_str(), url.as_str(), file_marker.as_str());
        normalized = replace(normalized.as_str(), list[n].as_str(), marker);
        n += 1;
    }
    normalized
}

/// Whether a path in running text ends before this character.
pub open spec fn ends_path(c: char) -> bool {
    crate::text::ascii_whitespace(c) || c == '\'' || c == '"' || c == ')' || c == ','
}

/// The end of the path that runs at `i`.
pub open spec fn path_end(text: Seq<char>, i: int) -> int
    decreases text.len() - i,
{
    if 0 <= i < text.len() && !ends_path(text[i]) {
        path_end(text, i + 1)
    } else {
        i
    }
}

/// `text` from `i` on with forward slashes in every path behind `marker`.
pub open spec fn separated_from(text: Seq<char>, marker: Seq<char>, i: int) -> Seq<char>
    decreases text.len() - i,
{
    if i < 0 || i >= text.len() {
        seq![]
    } else if marker.len() > 0 && stands_at(text, marker, i) {
        let start = i + marker.len();
        let end = path_end(text, start);
        if start <= end <= text.len() {
            marker + replaced(text.subrange(start, end), "\\"@, "/"@) + separated_from(text, marker, end)
        } else {
            seq![]
        }
    } else {
        seq![text[i]] + separated_from(text, marker, i + 1)
    }
}

fn find_path_end(chars: &Vec<char>, start: usize) -> (end: usize)
    requires
        start <= chars@.len(),
    ensures
        start <= end <= chars@.len(),
        end == path_end(chars@, start as int),
{
    let mut end: usize = start;
    while end < chars.len()
        invariant
            start <= end <= chars@.len(),
            path_end(chars@, end as int) == path_end(chars@, start as int),
        decreases chars.len() - end,
    {
        let c = chars[end];
        if crate::text::is_separator(Separator::AsciiWhitespace, c) || c == '\'' || c == '"' || c == ')' || c == ',' {
            return end;
        }
        end += 1;
    }
    end
}

fn separate_paths(text: &str, marker: &str) -> (result: String)
    ensures
        result@ == separated_from(text@, marker@, 0),
{
    let chars = to_chars(text);
    let needle = to_chars(marker);
    let mut result = String::new();
    let mut i: usize = 0;
    assert(result@ + separated_from(text@, marker@, 0) =~= separated_from(text@, marker@, 0));
    while i < chars.len()
        invariant
            chars@ == text@,
            needle@ == marker@,
            i <= chars@.len(),
            result@ + separated_from(text@, marker@, i as int) == separated_from(text@, marker@, 0),
        decreases chars.len() - i,
    {
        let ghost before = result@;
        if needle.len() > 0 && is_at(&chars, &needle, i) {
            let start = i + needle.len();
            let end = find_path_end(&chars, start);
            let path = from_chars(&chars, start, end);
            let slashed = replace(path.as_str(), "\\", "/");
            result.append(marker);
            result.append(slashed.as_str());
            let ghost rest = separated_from(text@, marker@, end as int);
            assert(result@ + rest =~= before + (marker@ + slashed@ + rest));
            i = end;
        } else {
            let ghost rest = separated_from(text@, marker@, i + 1);
            result.push(chars[i]);
            assert(result@ + rest =~= before + (seq![text@[i as int]] + rest));
            i += 1;
        }
    }
    assert(result@ + separated_from(text@, marker@, i as int) =~= result@);
    result
}

pub open spec fn known_separators(text: Seq<char>) -> Seq<char> {
    separated_from(
        separated_from(separated_from(text, "[WORKSPACE]"@, 0), "[INSTALL]"@, 0),
        "[REPO]"@,
        0,
    )
}

/// Writes the paths behind the root markers with forward slashes.
pub fn normalize_known_path_separators(value: String) -> (result: String)
    ensures
        result@ == known_separators(value@),
{
    let value = separate_paths(value.as_str(), "[WORKSPACE]");
    let value = separate_paths(value.as_str(), "[INSTALL]");
    separate_paths(value.as_str(), "[REPO]")
}

pub open spec fn token_char(c: char) -> bool {
    '0' <= c <= '9' || c == '-'
}

/// The end of the token that runs at `i`.
pub open spec fn token_end(text: Seq<char>, i: int) -> int
    decreases text.len() - i,
{
    if 0 <= i < text.len() && token_char(text[i]) {
        token_end(text, i + 1)
    } else {
        i
    }
}

/// `text` from `i` on with `[TOKEN]` for every token behind `marker`.
pub open spec fn tokened_from(text: Seq<char>, marker: Seq<char>, i: int) -> Seq<char>
    decreases text.len() - i,
{
    if i < 0 || i >= text.len() {
        seq![]
    } else if marker.len() > 0 && stands_at(text, marker, i) {
        let start = i + marker.len();
        let end = token_end(text, start);
        if !(start <= end <= text.len()) {
            seq![]
        } else if end == start {
            marker + tokened_from(text, marker, start)
        } else {
            marker + "[TOKEN]"@ + tokened_from(text, marker, end)
        }
    } else {
        seq![text[i]] + tokened_from(text, marker, i + 1)
    }
}

fn find_token_end(chars: &Vec<char>, start: usize) -> (end: usize)
    requires
        start <= chars@.len(),
    ensures
        start <= end <= chars@.len(),
        end == token_end(chars@, start as int),
{
    let mut end: usize = start;
    while end < chars.len()
        invariant
            start <= end <= chars@.len(),
            token_end(chars@, end as int) == token_end(chars@, start as int),
        decreases chars.len() - end,
    {
        let c = chars[end];
        if !(('0' <= c && c <= '9') || c == '-') {
            return end;
        }
        end += 1;
    }
    end
}

fn replace_tokens(text: &str, marker: &str) -> (result: String)
    ensures
        result@ == tokened_from(text@, marker@, 0),
{
    let chars = to_chars(text);
    let needle = to_chars(marker);
    let mut result = String::new();
    let mut i: usize = 0;
    assert(result@ + tokened_from(text@, marker@, 0) =~= tokened_from(text@, marker@, 0));
    while i < chars.len()
        invariant
            chars@ == text@,
            needle@ == marker@,
            i <= chars@.len(),
            result@ + tokened_from(text@, marker@, i as int) == tokened_from(text@, marker@, 0),
        decreases chars.len() - i,
    {
        let ghost before = result@;
        if needle.len() > 0 && is_at(&chars, &needle, i) {
            let start = i + needle.len();
            let end = find_token_end(&chars, start);
            result.append(marker);
            let ghost rest = tokened_from(text@, marker@, end as int);
            if end > start {
                result.append("[TOKEN]");
                assert(result@ + rest =~= before + (marker@ + "[TOKEN]"@ + rest));
            } else {
                assert(result@ + rest =~= before + (marker@ + rest));
            }
            i = end;
        } else {
            let ghost rest = tokened_from(text@, marker@, i + 1);
            result.push(chars[i]);
            assert(result@ + rest =~= before + (seq![text@[i as int]] + rest));
            i += 1;
        }
    }
    assert(result@ + tokened_from(text@, marker@, i as int) =~= result@);
    result
}

pub open spec fn tokens_replaced(text: Seq<char>) -> Seq<char> {
    tokened_from(tokened_from(text, ".tw-migrate-backup-"@, 0), ".tw-migrate-stage-"@, 0)
}

/// Replaces the tokens in the names of transaction files.
pub fn normalize_transaction_tokens(value: String) -> (result: String)
    ensures
        result@ == tokens_replaced(value@),
{
    let value = replace_tokens(value.as_str(), ".tw-migrate-backup-");
    replace_tokens(value.as_str(), ".tw-migrate-stage-")
}

/// A program's output without what depends on the machine.
pub open spec fn normalized_output(
    value: Seq<char>,
    repo_root: Seq<char>,
    install_root: Seq<char>,
    workspace: Seq<char>,
    known: Seq<(String, String)>,
) -> Seq<char> {
    let lines = unix_lines(value);
    let workspaces = with_root_marked(lines, known, workspace, "[WORKSPACE]"@);
    let installs = with_root_marked(workspaces, known, install_root, "[INSTALL]"@);
    let repos = with_root_marked(installs, known, repo_root, "[REPO]"@);
    tokens_replaced(known_separators(repos))
}

/// A program's output with the roots as markers, forward slashes behind them,
/// and no transaction tokens. `canonical` gives the resolved paths of the roots
/// that have one.
pub fn normalize_output(value: &str, suite: &Suite, workspace: &str, canonical: &Vec<(String, String)>) -> (result:
    String)
    ensures
        result@ == normalized_output(
            value@,
            suite.repo_root@,
            suite.install_root@,
            workspace@,
            canonical@,
        ),
{
    let normalized = normalize_lines(value);
    let normalized = mark_root(normalized, canonical, workspace, "[WORKSPACE]");
    let normalized = mark_root(normalized, canonical, suite.install_root.as_str(), "[INSTALL]");
    let normalized = mark_root(normalized, canonical, suite.repo_root.as_str(), "[REPO]");
    normalize_transaction_tokens(normalize_known_path_separators(normalized))
}

// ---------------------------------------------------------------------------
// Workspace changes
// ---------------------------------------------------------------------------

/// The text files of a workspace by path, in the order of their paths.
pub struct Tree {
    pub entries: Vec<(String, String)>,
}

/// The paths stand in ascending order, none twice.
pub open spec fn ascending(entries: Seq<(String, String)>) -> bool {
    forall|i: int, j: int|
        0 <= i < j < entries.len() ==> precedes((#[trigger] entries[i]).0@, (#[trigger] entries[j]).0@)
}

/// What a workspace file's change adds to the document.
pub open spec fn change(path: Seq<char>, before: Option<Seq<char>>, after: Option<Seq<char>>) -> Seq<char> {
    match (before, after) {
        (None, Some(content)) => "  added "@ + path + "\n    after: "@ + json_quoted(content) + "\n"@,
        (Some(content), None) => "  deleted "@ + path + "\n    before: "@ + json_quoted(content) + "\n"@,
        (Some(old_content), Some(new_content)) => if old_content == new_content {
            seq![]
        } else {
            "  modified "@ + path + "\n    before: "@ + json_quoted(old_content) + "\n    after: "@ + json_quoted(
                new_content,
            ) + "\n"@
        },
        (None, None) => seq![],
    }
}

/// The changes between the entries from `i` and from `j` on, in the order of
/// the paths.
pub open spec fn changes_from(before: Seq<(String, String)>, after: Seq<(String, String)>, i: int, j: int) -> Seq<char>
    decreases before.len() - i + after.len() - j,
{
    if i < 0 || j < 0 || i > before.len() || j > after.len() || (i == before.len() && j == after.len()) {
        seq![]
    } else if j == after.len() || (i < before.len() && precedes(before[i].0@, after[j].0@)) {
        change(before[i].0@, Some(before[i].1@), None) + changes_from(before, after, i + 1, j)
    } else if i == before.len() || precedes(after[j].0@, before[i].0@) {
        change(after[j].0@, None, Some(after[j].1@)) + changes_from(before, after, i, j + 1)
    } else {
        change(before[i].0@, Some(before[i].1@), Some(after[j].1@)) + changes_from(before, after, i + 1, j + 1)
    }
}

/// What the document says of a workspace before and after a step.
pub open spec fn delta(before: Seq<(String, String)>, after: Seq<(String, String)>) -> Seq<char> {
    let changes = changes_from(before, after, 0, 0);
    if changes.len() == 0 {
        "  unchanged\n"@
    } else {
        changes
    }
}

/// A text as a JSON string literal.
pub fn quoted(value: &str) -> (result: String)
    ensures
        result@ == json_quoted(value@),
{
    quote_json(value)
}

fn push_added(rendered: &mut String, path: &str, content: &str)
    ensures
        final(rendered)@ == old(rendered)@ + change(path@, None, Some(content@)),
{
    let ghost start = rendered@;
    rendered.append("  added ");
    rendered.append(path);
    rendered.append("\n    after: ");
    rendered.append(quoted(content).as_str());
    rendered.append("\n");
    assert(rendered@ =~= start + change(path@, None, Some(content@)));
}

fn push_deleted(rendered: &mut String, path: &str, content: &str)
    ensures
        final(rendered)@ == old(rendered)@ + change(path@, Some(content@), None),
{
    let ghost start = rendered@;
    rendered.append("  deleted ");
    rendered.append(path);
    rendered.append("\n    before: ");
    rendered.append(quoted(content).as_str());
    rendered.append("\n");
    assert(rendered@ =~= start + change(path@, Some(content@), None));
}

fn push_modified(rendered: &mut String, path: &str, old_content: &str, new_content: &str)
    ensures
        final(rendered)@ == old(rendered)@ + change(path@, Some(old_content@), Some(new_content@)),
{
    let ghost start = rendered@;
    if same(old_content, new_content) {
        assert(rendered@ =~= start + change(path@, Some(old_content@), Some(new_content@)));
        return ;
    }
    rendered.append("  modified ");
    rendered.append(path);
    rendered.append("\n    before: ");
    rendered.append(quoted(old_content).as_str());
    rendered.append("\n    after: ");
    rendered.append(quoted(new_content).as_str());
    rendered.append("\n");
    assert(rendered@ =~= start + change(path@, Some(old_content@), Some(new_content@)));
}

/// Writes down how a workspace changed.
pub fn render_delta(before: &Tree, after: &Tree) -> (result: String)
    requires
        ascending(before.entries@),
        ascending(after.entries@),
    ensures
        result@ == delta(before.entries@, after.entries@),
{
    let old_entries = &before.entries;
    let new_entries = &after.entries;
    let mut rendered = String::new();
    let mut i: usize = 0;
    let mut j: usize = 0;
    let ghost whole = changes_from(old_entries@, new_entries@, 0, 0);
    assert(rendered@ + whole =~= whole);
    while i < old_entries.len() || j < new_entries.len()
        invariant
            i <= old_entries@.len(),
            j <= new_entries@.len(),
            rendered@ + changes_from(old_entries@, new_entries@, i as int, j as int) == whole,
        decreases old_entries.len() - i + new_entries.len() - j,
    {
        let ghost start = rendered@;
        if j == new_entries.len() || (i < old_entries.len() && is_before(
            old_entries[i].0.as_str(),
            new_entries[j].0.as_str(),
        )) {
            push_deleted(&mut rendered, old_entries[i].0.as_str(), old_entries[i].1.as_str());
            proof {
                lemma_regroup(
                    start,
                    change(old_entries@[i as int].0@, Some(old_entries@[i as int].1@), None),
                    changes_from(old_entries@, new_entries@, i + 1, j as int),
                );
            }
            i += 1;
        } else if i == old_entries.len() || is_before(new_entries[j].0.as_str(), old_entries[i].0.as_str()) {
            push_added(&mut rendered, new_entries[j].0.as_str(), new_entries[j].1.as_str());
            proof {
                lemma_regroup(
                    start,
                    change(new_entries@[j as int].0@, None, Some(new_entries@[j as int].1@)),
                    changes_from(old_entries@, new_entries@, i as int, j + 1),
                );
            }
            j += 1;
        } else {
            push_modified(
                &mut rendered,
                old_entries[i].0.as_str(),
                old_entries[i].1.as_str(),
                new_entries[j].1.as_str(),
            );
            proof {
                lemma_regroup(
                    start,
                    change(
                        old_entries@[i as int].0@,
                        Some(old_entries@[i as int].1@),
                        Some(new_entries@[j as int].1@),
                    ),
                    changes_from(old_entries@, new_entries@, i + 1, j + 1),
                );
            }
            i += 1;
            j += 1;
        }
    }
    assert(rendered@ + changes_from(old_entries@, new_entries@, i as int, j as int) =~= rendered@);
    if rendered.as_str().is_empty() {
        "  unchanged\n".to_owned()
    } else {
        rendered
    }
}

proof fn lemma_regroup(a: Seq<char>, b: Seq<char>, c: Seq<char>)
    ensures
        a + (b + c) == a + b + c,
{
    assert(a + (b + c) =~= a + b + c);
}

/// The content that the entries give a path.
pub open spec fn content_at(entries: Seq<(String, String)>, path: Seq<char>, content: Seq<char>) -> bool {
    exists|i: int| 0 <= i < entries.len() && (#[trigger] entries[i]).0@ == path && entries[i].1@ == content
}

impl Tree {
    /// A workspace without files.
    pub fn new() -> (tree: Tree)
        ensures
            tree.entries@.len() == 0,
            ascending(tree.entries@),
    {
        Tree { entries: Vec::new() }
    }

    /// Records a file. A path that is there already gets the new content.
    pub fn insert(&mut self, path: String, content: String)
        requires
            ascending(old(self).entries@),
        ensures
            ascending(final(self).entries@),
            content_at(final(self).entries@, path@, content@),
            forall|other: Seq<char>, text: Seq<char>|
                other != path@ ==> #[trigger] content_at(final(self).entries@, other, text) == content_at(
                    old(self).entries@,
                    other,
                    text,
                ),
    {
        let ghost before = self.entries@;
        let ghost key = path@;
        let ghost value = content@;
        let mut k: usize = 0;
        while k < self.entries.len() && is_before(self.entries[k].0.as_str(), path.as_str())
            invariant
                k <= self.entries@.len(),
                self.entries@ == before,
                key == path@,
                forall|j: int| 0 <= j < k ==> precedes((#[trigger] before[j]).0@, key),
            decreases self.entries.len() - k,
        {
            k += 1;
        }
        proof {
            assert forall|j: int| k < j < before.len() implies precedes(key, (#[trigger] before[j]).0@) by {
                lemma_precedes_total_at(before[k as int].0@, key);
                lemma_precedes_transitive(key, before[k as int].0@, before[j].0@, 0);
            }
        }
        if k < self.entries.len() && same(self.entries[k].0.as_str(), path.as_str()) {
            self.entries.set(k, (path, content));
            let ghost after = self.entries@;
            proof {
                assert(after[k as int].0@ == key && after[k as int].1@ == value);
                lemma_insertion_kept(before, after, k as int, key, false);
            }
        } else {
            proof {
                if k < before.len() {
                    lemma_precedes_total_at(before[k as int].0@, key);
                }
            }
            self.entries.insert(k, (path, content));
            let ghost after = self.entries@;
            proof {
                assert(after[k as int].0@ == key && after[k as int].1@ == value);
                lemma_insertion_kept(before, after, k as int, key, true);
            }
        }
    }
}

proof fn lemma_precedes_total_at(a: Seq<char>, b: Seq<char>)
    ensures
        a == b ==> !precedes(a, b),
        a != b ==> precedes(a, b) != precedes(b, a),
{
    assert(a.take(0) =~= b.take(0));
    crate::text::lemma_precedes_total(a, b, 0);
}

proof fn lemma_precedes_transitive(a: Seq<char>, b: Seq<char>, c: Seq<char>, i: int)
    requires
        0 <= i,
    ensures
        crate::text::precedes_from(a, b, i) && crate::text::precedes_from(b, c, i) ==> crate::text::precedes_from(
            a,
            c,
            i,
        ),
    decreases a.len() - i,
{
    if i < a.len() {
        lemma_precedes_transitive(a, b, c, i + 1);
    }
}

/// Every entry but the one at `k` is carried over.
proof fn lemma_insertion_kept(
    before: Seq<(String, String)>,
    after: Seq<(String, String)>,
    k: int,
    key: Seq<char>,
    is_new: bool,
)
    requires
        ascending(before),
        0 <= k <= before.len(),
        is_new ==> after.len() == before.len() + 1,
        !is_new ==> after.len() == before.len() && k < before.len() && before[k].0@ == key,
        forall|j: int| 0 <= j < k ==> #[trigger] after[j] == before[j],
        is_new ==> forall|j: int| k < j < after.len() ==> #[trigger] after[j] == before[j - 1],
        !is_new ==> forall|j: int| k < j < after.len() ==> #[trigger] after[j] == before[j],
        k < after.len(),
        after[k].0@ == key,
        forall|j: int| 0 <= j < k ==> precedes((#[trigger] before[j]).0@, key),
        forall|j: int| k < j < before.len() ==> precedes(key, (#[trigger] before[j]).0@),
        is_new && k < before.len() ==> precedes(key, before[k].0@),
    ensures
        ascending(after),
        forall|other: Seq<char>, text: Seq<char>|
            other != key ==> #[trigger] content_at(after, other, text) == content_at(before, other, text),
{
    let shift: int = if is_new {
        1
    } else {
        0
    };
    assert forall|other: Seq<char>, text: Seq<char>| other != key implies #[trigger] content_at(after, other, text)
        == content_at(before, other, text) by {
        if content_at(after, other, text) {
            let i = choose|i: int| 0 <= i < after.len() && (#[trigger] after[i]).0@ == other && after[i].1@ == text;
            if i < k {
                assert(before[i].0@ == other && before[i].1@ == text);
            } else {
                assert(before[i - shift].0@ == other && before[i - shift].1@ == text);
            }
        }
        if content_at(before, other, text) {
            let i = choose|i: int| 0 <= i < before.len() && (#[trigger] before[i]).0@ == other && before[i].1@ == text;
            if i < k {
                assert(after[i].0@ == other && after[i].1@ == text);
            } else {
                assert(after[i + shift].0@ == other && after[i + shift].1@ == text);
            }
        }
    }
    assert forall|i: int, j: int| 0 <= i < j < after.len() implies precedes(
        (#[trigger] after[i]).0@,
        (#[trigger] after[j]).0@,
    ) by {
        if j < k {
        } else if i > k {
            assert(after[i] == before[i - shift]);
            assert(after[j] == before[j - shift]);
        } else if j == k {
            assert(after[i] == before[i]);
        } else if i == k {
            assert(after[j] == before[j - shift]);
        } else {
            assert(after[i] == before[i]);
            assert(after[j] == before[j - shift]);
        }
    }
}

// ---------------------------------------------------------------------------
// Steps
// ---------------------------------------------------------------------------

/// A status as it is written.
pub open spec fn status_text(status: i32) -> Seq<char> {
    if status < 0 {
        seq!['-'] + decimal((-(status as int)) as nat)
    } else {
        decimal(status as nat)
    }
}

fn push_status(text: &mut String, status: i32)
    ensures
        final(text)@ == old(text)@ + status_text(status),
{
    let ghost start = text@;
    if status < 0 {
        text.push('-');
        let size: i64 = -(status as i64);
        push_decimal(text, size as u64);
    } else {
        push_decimal(text, status as u64);
    }
    assert(text@ =~= start + status_text(status));
}

/// What a step adds to the document of a case.
pub open spec fn step_entry(
    name: Seq<char>,
    status: i32,
    stdout: Seq<char>,
    stderr: Seq<char>,
    changes: Seq<char>,
) -> Seq<char> {
    "\n--- step: "@ + name + " ---\nstatus: "@ + status_text(status) + "\nstdout: "@ + json_quoted(stdout)
        + "\nstderr: "@ + json_quoted(stderr) + "\nworkspace delta:\n"@ + changes
}

/// Writes down a step that ended with the expected status: its normalised
/// output and the changes that it made.
pub fn render_step(name: &str, status: i32, stdout: &str, stderr: &str, before: &Tree, after: &Tree) -> (result:
    String)
    requires
        ascending(before.entries@),
        ascending(after.entries@),
    ensures
        result@ == step_entry(name@, status, stdout@, stderr@, delta(before.entries@, after.entries@)),
{
    let mut text = "\n--- step: ".to_owned();
    text.append(name);
    text.append(" ---\nstatus: ");
    push_status(&mut text, status);
    text.append("\nstdout: ");
    text.append(quoted(stdout).as_str());
    text.append("\nstderr: ");
    text.append(quoted(stderr).as_str());
    text.append("\nworkspace delta:\n");
    text.append(render_delta(before, after).as_str());
    text
}

/// The failure of a step that ended with another status than expected.
pub open spec fn status_failure(
    case_name: Seq<char>,
    step: Seq<char>,
    expected: i32,
    actual: i32,
    stdout: Seq<char>,
    stderr: Seq<char>,
) -> Seq<char> {
    "case "@ + case_name + ", step "@ + step + ": expected status "@ + status_text(expected) + ", got "@ + status_text(
        actual,
    ) + "\nstdout:\n"@ + stdout + "\nstderr:\n"@ + stderr
}

/// Whether a step ended with the expected status; a program that was stopped
/// without a status fails.
pub fn check_status(
    case_name: &str,
    step: &str,
    expected: i32,
    actual: Option<i32>,
    stdout: &str,
    stderr: &str,
) -> (result: Result<i32, String>)
    ensures
        match actual {
            None => result matches Err(message) && message@ == "case "@ + case_name@ + ", step "@ + step@
                + ": CLI terminated without an integer exit status"@,
            Some(status) => if status == expected {
                result == Ok::<i32, String>(status)
            } else {
                result matches Err(message) && message@ == status_failure(
                    case_name@,
                    step@,
                    expected,
                    status,
                    stdout@,
                    stderr@,
                )
            },
        },
{
    let mut message = "case ".to_owned();
    message.append(case_name);
    message.append(", step ");
    message.append(step);
    match actual {
        None => {
            message.append(": CLI terminated without an integer exit status");
            Err(message)
        },
        Some(status) => {
            if status == expected {
                return Ok(status);
            }
            message.append(": expected status ");
            push_status(&mut message, expected);
            message.append(", got ");
            push_status(&mut message, status);
            message.append("\nstdout:\n");
            message.append(stdout);
            message.append("\nstderr:\n");
            message.append(stderr);
            Err(message)
        },
    }
}

/// The head of a case's document.
pub fn document_head(case_name: &str) -> (result: String)
    ensures
        result@ == "case: "@ + case_name@ + "\n"@,
{
    let mut document = "case: ".to_owned();
    document.append(case_name);
    document.append("\n");
    document
}

} // verus!
