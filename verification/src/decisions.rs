//! Which rules stay: what a batch, a failed compilation, an unproven
//! relationship and the rules that stay themselves decide.
use crate::html_attribute::{all_fit, candidates_fit_attribute};
use crate::request::{PlanRequest, RequestModel};
use crate::request_rules::{request_contest, Knowledge, KnowledgeModel};
use crate::rules::{
    all_stamped_unproven, has_rule, rule_id, rule_texts, stamp_unproven_rules, warn_rule, RuleId, RuleModel, RulePlan,
    RuleTextModels, RuleTexts,
};
use crate::selector::{KeyModel, SelectorKey};
use crate::shadow::{shadow_settled, stamp_in_file_shadow, Contest};
use crate::source::{
    classes_of, contexts_of, element_classes, element_has_context, in_context, ElementModel, FileModel, HtmlElement,
    SourceFile,
};
use crate::text::{list_has, texts, views};
use vstd::prelude::*;

verus! {

/// The pairs of utilities that conflict because of a rule.
pub type RuleConflicts = Vec<(RuleId, Vec<(String, String)>)>;

/// The models of [`RuleConflicts`].
pub type RuleConflictModels = Seq<(RuleId, Seq<(Seq<char>, Seq<char>)>)>;

pub open spec fn rule_conflicts(list: Seq<(RuleId, Vec<(String, String)>)>) -> RuleConflictModels {
    list.map_values(|entry: (RuleId, Vec<(String, String)>)| (entry.0, crate::number::pairs_of(entry.1@)))
}

/// The pairs of a rule from entry `i` on.
pub open spec fn conflicts_from(list: RuleConflictModels, id: RuleId, i: int) -> Option<Seq<(Seq<char>, Seq<char>)>>
    decreases list.len() - i,
{
    if i < 0 || i >= list.len() {
        None
    } else if list[i].0 == id {
        Some(list[i].1)
    } else {
        conflicts_from(list, id, i + 1)
    }
}

/// The pairs of utilities that conflict because of a rule.
pub fn find_conflicts<'a>(list: &'a RuleConflicts, id: RuleId) -> (result: Option<&'a Vec<(String, String)>>)
    ensures
        match conflicts_from(rule_conflicts(list@), id, 0) {
            Some(model) => result matches Some(pairs) && crate::number::pairs_of(pairs@) == model,
            None => result is None,
        },
{
    let mut i: usize = 0;
    while i < list.len()
        invariant
            i <= list@.len(),
            conflicts_from(rule_conflicts(list@), id, i as int) == conflicts_from(rule_conflicts(list@), id, 0),
        decreases list.len() - i,
    {
        let entry = &list[i];
        assert(rule_conflicts(list@)[i as int] == (entry.0, crate::number::pairs_of(entry.1@)));
        if entry.0 == id {
            return Some(&entry.1);
        }
        i += 1;
    }
    None
}

/// A rule with the warning of a batch. A rule that the caller blocked surfaces
/// only the warning that the caller attributes.
pub open spec fn blocked_stamped(rule: RuleModel, conflicts: RuleConflictModels, blocked: Seq<RuleId>) -> RuleModel {
    if rule.warning is None && blocked.contains(rule.id()) {
        rule.warned("candidate-compilation-failure"@)
    } else if conflicts_from(conflicts, rule.id(), 0) is Some {
        rule.warned("batch-stylesheet-conflict"@)
    } else {
        rule
    }
}

fn stamp_blocked_rules(rules: &mut Vec<RulePlan>, conflicts: &RuleConflicts, blocked: &Vec<RuleId>)
    ensures
        views(final(rules)@) == views(old(rules)@).map_values(
            |rule: RuleModel| blocked_stamped(rule, rule_conflicts(conflicts@), blocked@),
        ),
{
    let ghost start = views(rules@);
    let ghost models = rule_conflicts(conflicts@);
    let mut i: usize = 0;
    while i < rules.len()
        invariant
            i <= rules@.len() == start.len(),
            models == rule_conflicts(conflicts@),
            forall|k: int| 0 <= k < i ==> #[trigger] views(rules@)[k] == blocked_stamped(start[k], models, blocked@),
            forall|k: int| i <= k < start.len() ==> #[trigger] views(rules@)[k] == start[k],
        decreases rules.len() - i,
    {
        assert(views(rules@)[i as int] == rules@[i as int]@);
        let id = rule_id(&rules[i]);
        if rules[i].warning.is_none() && has_rule(blocked, id) {
            warn_rule(rules, i, "candidate-compilation-failure");
        } else if find_conflicts(conflicts, id).is_some() {
            warn_rule(rules, i, "batch-stylesheet-conflict");
        }
        i += 1;
    }
    assert(views(rules@) =~= start.map_values(
        |rule: RuleModel| blocked_stamped(rule, rule_conflicts(conflicts@), blocked@),
    ));
}

// ---------------------------------------------------------------------------
// Sites that cannot hold a rule's candidates
// ---------------------------------------------------------------------------

/// The element carries the class, and its attribute cannot hold the
/// candidates.
pub open spec fn unfit_site(
    css_path: Seq<char>,
    class: Seq<char>,
    candidates: Seq<Seq<char>>,
    source: Seq<char>,
    element: ElementModel,
) -> bool {
    &&& in_context(element, css_path)
    &&& classes_of(element).contains(class)
    &&& element.class_attribute matches Some(attribute) && attribute.writable && !all_fit(
        source,
        attribute,
        candidates,
    )
}

/// Some element of the file cannot hold the candidates.
pub open spec fn unfit_in(
    css_path: Seq<char>,
    class: Seq<char>,
    candidates: Seq<Seq<char>>,
    file: FileModel,
) -> bool {
    contexts_of(file, css_path).len() > 0 && exists|i: int|
        0 <= i < file.html_elements.len() && unfit_site(
            css_path,
            class,
            candidates,
            file.source,
            #[trigger] file.html_elements[i],
        )
}

/// Some site of the rule cannot hold its candidates.
pub open spec fn unfit(css_path: Seq<char>, files: Seq<FileModel>, rule: RuleModel) -> bool {
    rule.warning is None && (rule.key matches Some(KeyModel::Class(class)) && exists|i: int|
        0 <= i < files.len() && unfit_in(css_path, class, rule.candidates, #[trigger] files[i]))
}

/// Those of the first `n` rules with a site that cannot hold their candidates.
pub open spec fn unfit_rules(css_path: Seq<char>, files: Seq<FileModel>, rules: Seq<RuleModel>, n: int) -> Seq<RuleId>
    decreases n,
{
    if n <= 0 {
        seq![]
    } else if unfit(css_path, files, rules[n - 1]) {
        unfit_rules(css_path, files, rules, n - 1).push(rules[n - 1].id())
    } else {
        unfit_rules(css_path, files, rules, n - 1)
    }
}

fn is_unfit_site(css_path: &str, class: &str, candidates: &Vec<String>, source: &str, element: &HtmlElement) -> (result:
    bool)
    ensures
        result == unfit_site(css_path@, class@, texts(candidates@), source@, element@),
{
    element_has_context(element, css_path) && list_has(&element_classes(element), class)
        && match &element.class_attribute {
        Some(attribute) => attribute.writable && !candidates_fit_attribute(source, attribute, candidates),
        None => false,
    }
}

fn is_unfit_in(css_path: &str, class: &str, candidates: &Vec<String>, file: &SourceFile) -> (result: bool)
    ensures
        result == unfit_in(css_path@, class@, texts(candidates@), file@),
{
    if !file.has_analyzable_context(css_path) {
        return false;
    }
    let ghost elements = file@.html_elements;
    let mut i: usize = 0;
    while i < file.html_elements.len()
        invariant
            i <= file.html_elements@.len(),
            elements == file@.html_elements,
            contexts_of(file@, css_path@).len() > 0,
            forall|j: int|
                0 <= j < i ==> !unfit_site(
                    css_path@,
                    class@,
                    texts(candidates@),
                    file@.source,
                    #[trigger] elements[j],
                ),
        decreases file.html_elements.len() - i,
    {
        assert(elements[i as int] == file.html_elements@[i as int]@);
        if is_unfit_site(css_path, class, candidates, file.source.as_str(), &file.html_elements[i]) {
            assert(unfit_site(css_path@, class@, texts(candidates@), file@.source, elements[i as int]));
            return true;
        }
        i += 1;
    }
    false
}

fn is_unfit(css_path: &str, files: &Vec<SourceFile>, rule: &RulePlan) -> (result: bool)
    ensures
        result == unfit(css_path@, views(files@), rule@),
{
    if rule.warning.is_some() {
        return false;
    }
    let class = match &rule.key {
        Some(SelectorKey::Class(class)) => class,
        _ => {
            return false;
        },
    };
    let mut i: usize = 0;
    while i < files.len()
        invariant
            i <= files@.len(),
            rule@.key == Some(KeyModel::Class(class@)),
            rule@.warning is None,
            forall|j: int|
                0 <= j < i ==> !unfit_in(css_path@, class@, rule@.candidates, #[trigger] views(files@)[j]),
        decreases files.len() - i,
    {
        assert(views(files@)[i as int] == files@[i as int]@);
        if is_unfit_in(css_path, class.as_str(), &rule.candidates, &files[i]) {
            assert(unfit_in(css_path@, class@, rule@.candidates, views(files@)[i as int]));
            return true;
        }
        i += 1;
    }
    false
}

fn collect_unfit_rules(css_path: &str, files: &Vec<SourceFile>, rules: &Vec<RulePlan>) -> (result: Vec<RuleId>)
    ensures
        result@ == unfit_rules(css_path@, views(files@), views(rules@), rules@.len() as int),
{
    let mut result: Vec<RuleId> = Vec::new();
    let mut n: usize = 0;
    while n < rules.len()
        invariant
            n <= rules@.len(),
            result@ == unfit_rules(css_path@, views(files@), views(rules@), n as int),
        decreases rules.len() - n,
    {
        assert(views(rules@)[n as int] == rules@[n as int]@);
        if is_unfit(css_path, files, &rules[n]) {
            result.push(rule_id(&rules[n]));
        }
        n += 1;
    }
    result
}

// ---------------------------------------------------------------------------
// The whole
// ---------------------------------------------------------------------------

/// What decides which rules stay, beside the stylesheet itself.
pub struct VerdictsModel {
    pub conflicts: RuleConflictModels,
    /// Rules whose candidates failed to compile.
    pub blocked: Seq<RuleId>,
    /// Rules whose relationships are not proven, and why.
    pub unproven: RuleTextModels,
}

/// What decides which rules stay, beside the stylesheet itself.
pub struct Verdicts<'a> {
    pub conflicts: &'a RuleConflicts,
    pub blocked: &'a Vec<RuleId>,
    pub unproven: &'a RuleTexts,
}

impl<'a> View for Verdicts<'a> {
    type V = VerdictsModel;

    open spec fn view(&self) -> VerdictsModel {
        VerdictsModel {
            conflicts: rule_conflicts(self.conflicts@),
            blocked: self.blocked@,
            unproven: rule_texts(self.unproven@),
        }
    }
}

/// The rules with every warning. Late retention stamps can expose in-file
/// cascade competitors of a Vue component that reading could not see.
pub open spec fn decided_rules(
    know: KnowledgeModel,
    request: RequestModel,
    verdicts: VerdictsModel,
    rules: Seq<RuleModel>,
) -> Seq<RuleModel> {
    let blocked = rules.map_values(
        |rule: RuleModel| blocked_stamped(rule, verdicts.conflicts, verdicts.blocked),
    );
    let stamped = all_stamped_unproven(blocked, verdicts.unproven);
    if request.sheet.vue_blocks.len() > 0 {
        shadow_settled(
            know.shadows,
            request_contest(request),
            unfit_rules(request.sheet.css_path, request.files, stamped, stamped.len() as int),
            stamped,
        )
    } else {
        stamped
    }
}

/// Warns of every rule that stays.
pub fn decide_rules<'a>(know: &Knowledge, request: &PlanRequest, verdicts: &Verdicts<'a>, rules: &mut Vec<RulePlan>)
    ensures
        views(final(rules)@) == decided_rules(know@, request@, verdicts@, views(old(rules)@)),
{
    stamp_blocked_rules(rules, verdicts.conflicts, verdicts.blocked);
    stamp_unproven_rules(rules, verdicts.unproven);
    assert(request@.sheet.vue_blocks.len() == request.sheet.vue_blocks@.len());
    if request.sheet.vue_blocks.len() > 0 {
        let css_path = request.sheet.css_path.as_str();
        assert(views(rules@).len() == rules@.len());
        let also = collect_unfit_rules(css_path, &request.files, rules);
        let at = Contest { files: &request.files, css_path, vue_module: request.sheet.vue_module };
        stamp_in_file_shadow(&know.shadows, &at, &also, rules);
    }
}

} // verus!
