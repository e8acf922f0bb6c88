//! What planning one source file against one stylesheet yields.
use crate::edit::{Edit, EditModel};
use crate::names::References;
use crate::selector::{KeyModel, SelectorKey};
use crate::text::{same, texts, views};
use vstd::prelude::*;

verus! {

/// A warning of the migration.
pub struct Warning {
    pub code: String,
    pub file: String,
    /// Byte offsets into the authored file, or (0, 0) when a preprocessor
    /// rule has no unique authored mapping.
    pub start: usize,
    pub end: usize,
    pub message: String,
}

/// The model of a [`Warning`].
pub struct WarningModel {
    pub code: Seq<char>,
    pub file: Seq<char>,
    pub start: int,
    pub end: int,
    pub message: Seq<char>,
}

impl View for Warning {
    type V = WarningModel;

    open spec fn view(&self) -> WarningModel {
        WarningModel {
            code: self.code@,
            file: self.file@,
            start: self.start as int,
            end: self.end as int,
            message: self.message@,
        }
    }
}

/// The warning for a generated utility that overlaps a Tailwind class already
/// present at the rewrite site.
pub open spec fn conflict_warning(
    file: Seq<char>,
    start: int,
    end: int,
    generated: Seq<char>,
    existing: Seq<char>,
) -> WarningModel {
    WarningModel {
        code: "existing-tailwind-conflict"@,
        file,
        start,
        end,
        message: "Generated utility `"@ + generated + "` may conflict with existing `"@ + existing + "`."@,
    }
}

impl Warning {
    pub fn new(code: &str, file: &str, span: (usize, usize), message: String) -> (result: Warning)
        ensures
            result@ == (WarningModel {
                code: code@,
                file: file@,
                start: span.0 as int,
                end: span.1 as int,
                message: message@,
            }),
    {
        Warning { code: code.to_owned(), file: file.to_owned(), start: span.0, end: span.1, message }
    }

    /// The shared warning for a generated utility overlapping a Tailwind
    /// class already present at the rewrite site.
    pub fn existing_tailwind_conflict(
        file: &str,
        span: (usize, usize),
        generated: &str,
        existing: &str,
    ) -> (result: Warning)
        ensures
            result@ == conflict_warning(file@, span.0 as int, span.1 as int, generated@, existing@),
    {
        let mut message = "Generated utility `".to_owned();
        message.append(generated);
        message.append("` may conflict with existing `");
        message.append(existing);
        message.append("`.");
        Warning::new("existing-tailwind-conflict", file, span, message)
    }
}

/// Where a candidate replaces a selector's declaration.
pub struct CandidateMatch {
    pub start: usize,
    pub end: usize,
    pub element_start: Option<usize>,
    pub key: SelectorKey,
    pub candidate: String,
    pub origin_candidate: String,
}

/// The model of a [`CandidateMatch`].
pub struct MatchModel {
    pub start: int,
    pub end: int,
    pub element_start: Option<usize>,
    pub key: KeyModel,
    pub candidate: Seq<char>,
    pub origin_candidate: Seq<char>,
}

impl View for CandidateMatch {
    type V = MatchModel;

    open spec fn view(&self) -> MatchModel {
        MatchModel {
            start: self.start as int,
            end: self.end as int,
            element_start: self.element_start,
            key: self.key@,
            candidate: self.candidate@,
            origin_candidate: self.origin_candidate@,
        }
    }
}

/// What one source file becomes.
pub struct SourcePlan {
    pub edits: Vec<Edit>,
    /// The edits that delete the import of a module that nothing needs any
    /// more.
    pub removable_import_edits: Vec<Edit>,
    /// The candidates written, in ascending order.
    pub candidates: Vec<String>,
    pub matches: Vec<CandidateMatch>,
    /// References to classes of the stylesheet, and those of them that were
    /// rewritten in full.
    pub module_refs: References,
    pub matched_module_refs: References,
    pub module_references_safe: bool,
    pub warnings: Vec<Warning>,
}

/// The model of a [`SourcePlan`].
pub struct PlanModel {
    pub edits: Seq<EditModel>,
    pub removable_import_edits: Seq<EditModel>,
    pub candidates: Seq<Seq<char>>,
    pub matches: Seq<MatchModel>,
    pub module_refs: Seq<Seq<char>>,
    pub matched_module_refs: Seq<Seq<char>>,
    pub module_references_safe: bool,
    pub warnings: Seq<WarningModel>,
}

impl View for SourcePlan {
    type V = PlanModel;

    open spec fn view(&self) -> PlanModel {
        PlanModel {
            edits: views(self.edits@),
            removable_import_edits: views(self.removable_import_edits@),
            candidates: texts(self.candidates@),
            matches: views(self.matches@),
            module_refs: self.module_refs@,
            matched_module_refs: self.matched_module_refs@,
            module_references_safe: self.module_references_safe,
            warnings: views(self.warnings@),
        }
    }
}

/// The plan that changes nothing.
pub open spec fn no_plan() -> PlanModel {
    PlanModel {
        edits: seq![],
        removable_import_edits: seq![],
        candidates: seq![],
        matches: seq![],
        module_refs: seq![],
        matched_module_refs: seq![],
        module_references_safe: true,
        warnings: seq![],
    }
}

/// The plan that changes nothing.
pub fn empty_source_plan() -> (result: SourcePlan)
    ensures
        result@ == no_plan(),
{
    let result = SourcePlan {
        edits: Vec::new(),
        removable_import_edits: Vec::new(),
        candidates: Vec::new(),
        matches: Vec::new(),
        module_refs: References::new(),
        matched_module_refs: References::new(),
        module_references_safe: true,
        warnings: Vec::new(),
    };
    assert(result@.edits =~= no_plan().edits);
    assert(result@.removable_import_edits =~= no_plan().removable_import_edits);
    assert(result@.candidates =~= no_plan().candidates);
    assert(result@.matches =~= no_plan().matches);
    assert(result@.warnings =~= no_plan().warnings);
    result
}

/// The candidates of each selector key; the first entry of a key counts.
pub struct Candidates {
    pub entries: Vec<(SelectorKey, Vec<String>)>,
}

impl View for Candidates {
    type V = Seq<(KeyModel, Seq<Seq<char>>)>;

    open spec fn view(&self) -> Seq<(KeyModel, Seq<Seq<char>>)> {
        self.entries@.map_values(|entry: (SelectorKey, Vec<String>)| (entry.0@, texts(entry.1@)))
    }
}

/// What the entries from `i` on hold for `key`.
pub open spec fn held_from(entries: Seq<(KeyModel, Seq<Seq<char>>)>, key: KeyModel, i: int) -> Option<Seq<Seq<char>>>
    decreases entries.len() - i,
{
    if i < 0 || i >= entries.len() {
        None
    } else if entries[i].0 == key {
        Some(entries[i].1)
    } else {
        held_from(entries, key, i + 1)
    }
}

/// The candidates of `key`.
pub open spec fn held(entries: Seq<(KeyModel, Seq<Seq<char>>)>, key: KeyModel) -> Option<Seq<Seq<char>>> {
    held_from(entries, key, 0)
}

impl Candidates {
    /// The candidates of a key.
    pub fn get(&self, key: &SelectorKey) -> (result: Option<&Vec<String>>)
        ensures
            match result {
                Some(list) => held(self@, key@) == Some(texts(list@)),
                None => held(self@, key@) is None,
            },
    {
        let mut i: usize = 0;
        while i < self.entries.len()
            invariant
                i <= self.entries@.len(),
                held_from(self@, key@, i as int) == held(self@, key@),
            decreases self.entries.len() - i,
        {
            let entry = &self.entries[i];
            assert(self@[i as int] == (entry.0@, texts(entry.1@)));
            if entry.0.same(key) {
                return Some(&entry.1);
            }
            i += 1;
        }
        None
    }

    /// Whether the key has an entry.
    pub fn has(&self, key: &SelectorKey) -> (result: bool)
        ensures
            result == (held(self@, key@) is Some),
    {
        self.get(key).is_some()
    }
}

/// Which pairs of a generated utility and an existing class set overlapping
/// declarations.
pub struct Conflicts {
    pub pairs: Vec<(String, String)>,
}

impl View for Conflicts {
    type V = Seq<(Seq<char>, Seq<char>)>;

    open spec fn view(&self) -> Seq<(Seq<char>, Seq<char>)> {
        self.pairs@.map_values(|pair: (String, String)| (pair.0@, pair.1@))
    }
}

/// The two conflict.
pub open spec fn conflict(pairs: Seq<(Seq<char>, Seq<char>)>, a: Seq<char>, b: Seq<char>) -> bool {
    pairs.contains((a, b))
}

impl Conflicts {
    /// Whether a generated utility conflicts with an existing class.
    pub fn conflict(&self, generated: &str, existing: &str) -> (result: bool)
        ensures
            result == conflict(self@, generated@, existing@),
    {
        let mut i: usize = 0;
        while i < self.pairs.len()
            invariant
                i <= self.pairs@.len(),
                forall|j: int| 0 <= j < i ==> #[trigger] self@[j] != (generated@, existing@),
            decreases self.pairs.len() - i,
        {
            let pair = &self.pairs[i];
            assert(self@[i as int] == (pair.0@, pair.1@));
            if same(pair.0.as_str(), generated) && same(pair.1.as_str(), existing) {
                return true;
            }
            i += 1;
        }
        false
    }
}

/// The first text of `list` from `i` on that conflicts with `generated`.
pub open spec fn clash_from(
    pairs: Seq<(Seq<char>, Seq<char>)>,
    generated: Seq<char>,
    list: Seq<Seq<char>>,
    i: int,
) -> Option<Seq<char>>
    decreases list.len() - i,
{
    if i < 0 || i >= list.len() {
        None
    } else if conflict(pairs, generated, list[i]) {
        Some(list[i])
    } else {
        clash_from(pairs, generated, list, i + 1)
    }
}

/// The first pair of a text of `generated` from `i` on and a text of
/// `existing` that conflict.
pub open spec fn first_clash(
    pairs: Seq<(Seq<char>, Seq<char>)>,
    generated: Seq<Seq<char>>,
    existing: Seq<Seq<char>>,
    i: int,
) -> Option<(Seq<char>, Seq<char>)>
    decreases generated.len() - i,
{
    if i < 0 || i >= generated.len() {
        None
    } else {
        match clash_from(pairs, generated[i], existing, 0) {
            Some(other) => Some((generated[i], other)),
            None => first_clash(pairs, generated, existing, i + 1),
        }
    }
}

impl Conflicts {
    /// The first existing class that conflicts with a generated utility.
    pub fn find_clash(&self, generated: &str, existing: &Vec<String>) -> (result: Option<String>)
        ensures
            crate::text::maybe(result) == clash_from(self@, generated@, texts(existing@), 0),
    {
        let mut i: usize = 0;
        while i < existing.len()
            invariant
                i <= existing@.len(),
                clash_from(self@, generated@, texts(existing@), i as int) == clash_from(
                    self@,
                    generated@,
                    texts(existing@),
                    0,
                ),
            decreases existing.len() - i,
        {
            assert(texts(existing@)[i as int] == existing@[i as int]@);
            if self.conflict(generated, existing[i].as_str()) {
                return Some(existing[i].clone());
            }
            i += 1;
        }
        None
    }

    /// The first generated utility that conflicts with an existing class, and
    /// that class.
    pub fn find_first_clash(&self, generated: &Vec<String>, existing: &Vec<String>) -> (result: Option<(String, String)>)
        ensures
            match result {
                Some(pair) => first_clash(self@, texts(generated@), texts(existing@), 0) == Some((pair.0@, pair.1@)),
                None => first_clash(self@, texts(generated@), texts(existing@), 0) is None,
            },
    {
        let mut i: usize = 0;
        while i < generated.len()
            invariant
                i <= generated@.len(),
                first_clash(self@, texts(generated@), texts(existing@), i as int) == first_clash(
                    self@,
                    texts(generated@),
                    texts(existing@),
                    0,
                ),
            decreases generated.len() - i,
        {
            assert(texts(generated@)[i as int] == generated@[i as int]@);
            if let Some(other) = self.find_clash(generated[i].as_str(), existing) {
                return Some((generated[i].clone(), other));
            }
            i += 1;
        }
        None
    }
}

/// Some text of one list conflicts with one of the other.
pub open spec fn lists_conflict(
    pairs: Seq<(Seq<char>, Seq<char>)>,
    left: Seq<Seq<char>>,
    right: Seq<Seq<char>>,
) -> bool {
    exists|i: int, j: int|
        0 <= i < left.len() && 0 <= j < right.len() && conflict(pairs, #[trigger] left[i], #[trigger] right[j])
}

/// Whether some text of one list conflicts with one of the other.
pub fn do_lists_conflict(pairs: &Conflicts, left: &Vec<String>, right: &Vec<String>) -> (result: bool)
    ensures
        result == lists_conflict(pairs@, texts(left@), texts(right@)),
{
    let ghost a = texts(left@);
    let ghost b = texts(right@);
    let mut i: usize = 0;
    while i < left.len()
        invariant
            i <= left@.len(),
            a == texts(left@),
            b == texts(right@),
            forall|k: int, l: int|
                0 <= k < i && 0 <= l < b.len() ==> !conflict(pairs@, #[trigger] a[k], #[trigger] b[l]),
        decreases left.len() - i,
    {
        assert(a[i as int] == left@[i as int]@);
        let mut j: usize = 0;
        while j < right.len()
            invariant
                i < left@.len(),
                j <= right@.len(),
                a == texts(left@),
                b == texts(right@),
                a[i as int] == left@[i as int]@,
                forall|l: int| 0 <= l < j ==> !conflict(pairs@, a[i as int], #[trigger] b[l]),
            decreases right.len() - j,
        {
            assert(b[j as int] == right@[j as int]@);
            if pairs.conflict(left[i].as_str(), right[j].as_str()) {
                assert(conflict(pairs@, a[i as int], b[j as int]));
                return true;
            }
            j += 1;
        }
        i += 1;
    }
    false
}

} // verus!
