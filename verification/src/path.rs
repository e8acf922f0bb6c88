//! Normalised `/`-separated paths: how an import specifier names a file.
use crate::text::{copy_texts, from_chars, pieces, same, split, texts, to_chars, Separator};
use vstd::prelude::*;

verus! {

/// A path without `.` and `..` segments.
pub struct FilePath {
    pub absolute: bool,
    pub parts: Vec<String>,
}

/// The model of a [`FilePath`].
pub struct PathModel {
    pub absolute: bool,
    pub parts: Seq<Seq<char>>,
}

impl View for FilePath {
    type V = PathModel;

    open spec fn view(&self) -> PathModel {
        PathModel { absolute: self.absolute, parts: texts(self.parts@) }
    }
}

/// What one segment does to the parts before it: an empty segment and `.` do
/// nothing, `..` leaves the last part, any other segment enters it.
pub open spec fn entered(parts: Seq<Seq<char>>, segment: Seq<char>) -> Seq<Seq<char>> {
    if segment.len() == 0 || segment == "."@ {
        parts
    } else if segment == ".."@ {
        if parts.len() > 0 {
            parts.drop_last()
        } else {
            parts
        }
    } else {
        parts.push(segment)
    }
}

/// The parts after the first `n` segments.
pub open spec fn walked(parts: Seq<Seq<char>>, segments: Seq<Seq<char>>, n: int) -> Seq<Seq<char>>
    decreases n,
{
    if n <= 0 {
        parts
    } else {
        entered(walked(parts, segments, n - 1), segments[n - 1])
    }
}

pub open spec fn walked_all(parts: Seq<Seq<char>>, segments: Seq<Seq<char>>) -> Seq<Seq<char>> {
    walked(parts, segments, segments.len() as int)
}

pub open spec fn segments_of(path: Seq<char>) -> Seq<Seq<char>> {
    pieces(path, Separator::Char('/'))
}

pub open spec fn is_absolute(path: Seq<char>) -> bool {
    path.len() > 0 && path[0] == '/'
}

/// The normal form of a path.
pub open spec fn normalized(path: Seq<char>) -> PathModel {
    PathModel { absolute: is_absolute(path), parts: walked_all(seq![], segments_of(path)) }
}

/// Whether a segment names something: neither empty nor `.`.
pub open spec fn significant(segment: Seq<char>) -> bool {
    segment.len() > 0 && segment != "."@
}

/// The index behind the last significant segment among the first `n`.
pub open spec fn significant_end(segments: Seq<Seq<char>>, n: int) -> int
    decreases n,
{
    if n <= 0 {
        0
    } else if significant(segments[n - 1]) {
        n
    } else {
        significant_end(segments, n - 1)
    }
}

/// The file that `import` names in the file at `path`: `import` is read from
/// the directory of that file, unless it is absolute.
pub open spec fn resolved(path: Seq<char>, import: Seq<char>) -> PathModel {
    if is_absolute(import) {
        normalized(import)
    } else {
        let segments = segments_of(path);
        let end = significant_end(segments, segments.len() as int);
        if end == 0 {
            PathModel { absolute: false, parts: walked_all(seq![], segments_of(import)) }
        } else {
            PathModel {
                absolute: is_absolute(path),
                parts: walked_all(walked(seq![], segments, end - 1), segments_of(import)),
            }
        }
    }
}

/// Whether the path starts at the root.
pub fn starts_absolute(path: &str) -> (result: bool)
    ensures
        result == is_absolute(path@),
{
    path.unicode_len() > 0 && path.get_char(0) == '/'
}

fn enter(parts: &mut Vec<String>, segment: &String)
    ensures
        texts(final(parts)@) == entered(texts(old(parts)@), segment@),
{
    let ghost before = texts(parts@);
    if segment.as_str().is_empty() || same(segment.as_str(), ".") {
    } else if same(segment.as_str(), "..") {
        if parts.len() > 0 {
            parts.pop();
            assert(texts(parts@) =~= before.drop_last());
        }
    } else {
        parts.push(segment.clone());
        assert(texts(parts@) =~= before.push(segment@));
    }
}

fn walk(parts: &mut Vec<String>, segments: &Vec<String>, n: usize)
    requires
        n <= segments@.len(),
    ensures
        texts(final(parts)@) == walked(texts(old(parts)@), texts(segments@), n as int),
{
    let ghost first = texts(parts@);
    let mut i: usize = 0;
    while i < n
        invariant
            i <= n <= segments@.len(),
            texts(parts@) == walked(first, texts(segments@), i as int),
        decreases n - i,
    {
        enter(parts, &segments[i]);
        assert(texts(segments@)[i as int] == segments@[i as int]@);
        i += 1;
    }
}

/// The normal form of a path.
pub fn normalize_path(path: &str) -> (result: FilePath)
    ensures
        result@ == normalized(path@),
{
    let segments = split(path, Separator::Char('/'));
    let mut parts: Vec<String> = Vec::new();
    assert(texts(parts@) =~= Seq::<Seq<char>>::empty());
    assert(texts(segments@).len() == segments@.len());
    walk(&mut parts, &segments, segments.len());
    FilePath { absolute: starts_absolute(path), parts }
}

fn behind_significant(segments: &Vec<String>) -> (end: usize)
    ensures
        end <= segments@.len(),
        end == significant_end(texts(segments@), segments@.len() as int),
{
    let mut n: usize = segments.len();
    while n > 0
        invariant
            n <= segments@.len(),
            significant_end(texts(segments@), n as int) == significant_end(texts(segments@), segments@.len() as int),
        decreases n,
    {
        let segment = &segments[n - 1];
        assert(texts(segments@)[n - 1] == segment@);
        if !segment.as_str().is_empty() && !same(segment.as_str(), ".") {
            return n;
        }
        n -= 1;
    }
    0
}

/// The file that an import specifier names in the file at `file_path`.
pub fn resolve_import(file_path: &str, import: &str) -> (result: FilePath)
    ensures
        result@ == resolved(file_path@, import@),
{
    if starts_absolute(import) {
        return normalize_path(import);
    }
    let segments = split(file_path, Separator::Char('/'));
    let steps = split(import, Separator::Char('/'));
    let mut parts: Vec<String> = Vec::new();
    assert(texts(parts@) =~= Seq::<Seq<char>>::empty());
    assert(texts(segments@).len() == segments@.len());
    assert(texts(steps@).len() == steps@.len());
    let end = behind_significant(&segments);
    if end == 0 {
        walk(&mut parts, &steps, steps.len());
        return FilePath { absolute: false, parts };
    }
    walk(&mut parts, &segments, end - 1);
    walk(&mut parts, &steps, steps.len());
    FilePath { absolute: starts_absolute(file_path), parts }
}

pub fn same_texts(a: &Vec<String>, b: &Vec<String>) -> (result: bool)
    ensures
        result == (texts(a@) == texts(b@)),
{
    assert(texts(a@).len() == a@.len());
    assert(texts(b@).len() == b@.len());
    if a.len() != b.len() {
        return false;
    }
    let mut i: usize = 0;
    while i < a.len()
        invariant
            i <= a@.len() == b@.len(),
            forall|j: int| 0 <= j < i ==> #[trigger] texts(a@)[j] == texts(b@)[j],
        decreases a.len() - i,
    {
        if !same(a[i].as_str(), b[i].as_str()) {
            assert(texts(a@)[i as int] != texts(b@)[i as int]);
            return false;
        }
        assert(texts(a@)[i as int] == texts(b@)[i as int]);
        i += 1;
    }
    assert(texts(a@) =~= texts(b@));
    true
}

impl FilePath {
    /// Whether two paths name the same file.
    pub fn same(&self, other: &FilePath) -> (result: bool)
        ensures
            result == (self@ == other@),
    {
        self.absolute == other.absolute && same_texts(&self.parts, &other.parts)
    }

    fn copy(&self) -> (result: FilePath)
        ensures
            result@ == self@,
    {
        FilePath { absolute: self.absolute, parts: copy_texts(&self.parts) }
    }
}

/// The path with `.` and `extension` behind its last part.
pub open spec fn with_extension(path: PathModel, extension: Seq<char>) -> PathModel {
    let suffix = seq!['.'] + extension;
    if path.parts.len() == 0 {
        PathModel { parts: seq![suffix], ..path }
    } else {
        PathModel { parts: path.parts.drop_last().push(path.parts.last() + suffix), ..path }
    }
}

/// The file `index.` and `extension` under the path.
pub open spec fn with_index(path: PathModel, extension: Seq<char>) -> PathModel {
    PathModel { parts: path.parts.push("index."@ + extension), ..path }
}

/// The extensions that an extensionless specifier may leave out.
pub open spec fn probe_extensions() -> Seq<Seq<char>> {
    seq!["tsx"@, "ts"@, "jsx"@, "js"@, "mjs"@, "cjs"@]
}

fn probe_list() -> (result: Vec<String>)
    ensures
        texts(result@) == probe_extensions(),
{
    let mut result: Vec<String> = Vec::new();
    result.push("tsx".to_owned());
    result.push("ts".to_owned());
    result.push("jsx".to_owned());
    result.push("js".to_owned());
    result.push("mjs".to_owned());
    result.push("cjs".to_owned());
    assert(texts(result@) =~= probe_extensions());
    result
}

/// Whether a specifier that resolves to `base` can mean the file at `path`:
/// the exact path, the path with an extension, or an index file under it.
pub open spec fn is_probe(base: PathModel, path: PathModel) -> bool {
    ||| path == base
    ||| exists|k: int|
        0 <= k < probe_extensions().len() && (path == with_extension(base, #[trigger] probe_extensions()[k]) || path
            == with_index(base, probe_extensions()[k]))
}

fn add_extension(path: &FilePath, extension: &str) -> (result: FilePath)
    ensures
        result@ == with_extension(path@, extension@),
{
    let mut suffix = String::new();
    suffix.push('.');
    suffix.append(extension);
    assert(suffix@ =~= seq!['.'] + extension@);
    let mut result = path.copy();
    let ghost before = result@.parts;
    assert(before.len() == result.parts@.len());
    match result.parts.pop() {
        None => {
            result.parts.push(suffix);
            assert(texts(result.parts@) =~= seq![suffix@]);
        },
        Some(last) => {
            let mut name = last;
            assert(name@ == before.last());
            name.append(suffix.as_str());
            result.parts.push(name);
            assert(texts(result.parts@) =~= before.drop_last().push(before.last() + suffix@));
        },
    }
    result
}

fn add_index(path: &FilePath, extension: &str) -> (result: FilePath)
    ensures
        result@ == with_index(path@, extension@),
{
    let mut name = "index.".to_owned();
    name.append(extension);
    let mut result = path.copy();
    let ghost before = texts(result.parts@);
    result.parts.push(name);
    assert(texts(result.parts@) =~= before.push(name@));
    result
}

/// Whether a specifier that resolves to `base` can mean the file at `path`.
pub fn probes(base: &FilePath, path: &FilePath) -> (result: bool)
    ensures
        result == is_probe(base@, path@),
{
    if path.same(base) {
        return true;
    }
    let extensions = probe_list();
    assert(texts(extensions@).len() == extensions@.len());
    let mut k: usize = 0;
    while k < extensions.len()
        invariant
            texts(extensions@) == probe_extensions(),
            extensions@.len() == probe_extensions().len(),
            k <= extensions@.len(),
            path@ != base@,
            forall|j: int|
                0 <= j < k ==> path@ != with_extension(base@, #[trigger] probe_extensions()[j]) && path@
                    != with_index(base@, probe_extensions()[j]),
        decreases extensions.len() - k,
    {
        assert(probe_extensions()[k as int] == extensions@[k as int]@);
        if path.same(&add_extension(base, extensions[k].as_str())) || path.same(
            &add_index(base, extensions[k].as_str()),
        ) {
            return true;
        }
        k += 1;
    }
    false
}

/// The last component of a path, where it names a file.
pub open spec fn file_name(path: Seq<char>) -> Option<Seq<char>> {
    let segments = segments_of(path);
    let end = significant_end(segments, segments.len() as int);
    if end == 0 || segments[end - 1] == ".."@ {
        None
    } else {
        Some(segments[end - 1])
    }
}

/// The position of the last `.` among the first `n` characters.
pub open spec fn last_dot(name: Seq<char>, n: int) -> Option<int>
    decreases n,
{
    if n <= 0 {
        None
    } else if name[n - 1] == '.' {
        Some(n - 1)
    } else {
        last_dot(name, n - 1)
    }
}

/// The part of the file name behind its last `.`, unless that is its first
/// character.
pub open spec fn extension(path: Seq<char>) -> Option<Seq<char>> {
    match file_name(path) {
        None => None,
        Some(name) => match last_dot(name, name.len() as int) {
            Some(dot) => if dot > 0 {
                Some(name.skip(dot + 1))
            } else {
                None
            },
            None => None,
        },
    }
}

pub fn find_file_name(path: &str) -> (result: Option<String>)
    ensures
        match file_name(path@) {
            Some(name) => result matches Some(found) && found@ == name,
            None => result is None,
        },
{
    let segments = split(path, Separator::Char('/'));
    assert(texts(segments@).len() == segments@.len());
    let end = behind_significant(&segments);
    if end == 0 {
        return None;
    }
    assert(texts(segments@)[end - 1] == segments@[end - 1]@);
    if same(segments[end - 1].as_str(), "..") {
        return None;
    }
    Some(segments[end - 1].clone())
}

/// Whether the path has this extension.
pub fn has_extension(path: &str, expected: &str) -> (result: bool)
    ensures
        result == (extension(path@) == Some(expected@)),
{
    let name = match find_file_name(path) {
        None => {
            return false;
        },
        Some(name) => name,
    };
    let chars = to_chars(name.as_str());
    let mut n: usize = chars.len();
    while n > 0
        invariant
            chars@ == name@,
            n <= chars@.len(),
            file_name(path@) == Some(name@),
            last_dot(name@, n as int) == last_dot(name@, name@.len() as int),
        decreases n,
    {
        if chars[n - 1] == '.' {
            if n == 1 {
                return false;
            }
            let ending = from_chars(&chars, n, chars.len());
            assert(ending@ =~= name@.skip(n as int));
            return same(ending.as_str(), expected);
        }
        n -= 1;
    }
    false
}

} // verus!
