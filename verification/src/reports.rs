//! What becomes of every rule, and the reason that a rule stays.
use crate::consumption::Consumed;
use crate::decisions::{conflicts_from, find_conflicts, Verdicts, VerdictsModel};
use crate::duplicate::Duplicate;
use crate::edit::{original_offset, rounds, traced, Edit, EditModel};
use crate::names::occurrences_of;
use crate::number::pairs_of;
use crate::plan::{Warning, WarningModel};
use crate::request::{is_module_sheet, sheet_is_module, BatchStylesheet, SheetModel};
use crate::rules::{find_rule_text, has_warning, rule_id, rule_text, RuleId, RuleModel, RulePlan};
use crate::selector::{KeyModel, SelectorKey};
use crate::text::{copy, copy_texts, join, joined, same, texts, views};
use vstd::prelude::*;

verus! {

/// What becomes of a rule.
#[derive(Debug)]
pub struct RuleReport {
    pub selector: String,
    /// `converted` or `retained`.
    pub status: String,
    pub candidates: Vec<String>,
    pub file: String,
    pub rule_id: RuleId,
    /// Authored-domain rule span for anchoring caller-side warnings, or (0, 0)
    /// when the rule has no unique authored mapping.
    pub authored_span: RuleId,
    /// Index of the owning batch stylesheet entry. Same-path entries (a Vue
    /// SFC's scoped and module blocks) reuse local rule spans, so compile
    /// failures must be attributed per entry, not per path.
    pub stylesheet: usize,
}

/// The model of a [`RuleReport`].
pub struct ReportModel {
    pub selector: Seq<char>,
    pub status: Seq<char>,
    pub candidates: Seq<Seq<char>>,
    pub file: Seq<char>,
    pub rule_id: RuleId,
    pub authored_span: RuleId,
    pub stylesheet: usize,
}

impl View for RuleReport {
    type V = ReportModel;

    open spec fn view(&self) -> ReportModel {
        ReportModel {
            selector: self.selector@,
            status: self.status@,
            candidates: texts(self.candidates@),
            file: self.file@,
            rule_id: self.rule_id,
            authored_span: self.authored_span,
            stylesheet: self.stylesheet,
        }
    }
}

impl Duplicate for RuleReport {
    fn duplicate(&self) -> (result: Self) {
        RuleReport {
            selector: self.selector.clone(),
            status: self.status.clone(),
            candidates: copy_texts(&self.candidates),
            file: self.file.clone(),
            rule_id: self.rule_id,
            authored_span: self.authored_span,
            stylesheet: self.stylesheet,
        }
    }
}

// ---------------------------------------------------------------------------
// Reasons
// ---------------------------------------------------------------------------

/// A pair of utilities as messages name it.
pub open spec fn named_pair(pair: (Seq<char>, Seq<char>)) -> Seq<char> {
    "`"@ + pair.0 + "` and `"@ + pair.1 + "`"@
}

/// Pairs of utilities as messages name them.
pub open spec fn named_pairs(pairs: Seq<(Seq<char>, Seq<char>)>) -> Seq<char> {
    joined(pairs.map_values(|pair: (Seq<char>, Seq<char>)| named_pair(pair)), ", "@)
}

fn name_pairs(pairs: &Vec<(String, String)>) -> (result: String)
    ensures
        result@ == named_pairs(pairs_of(pairs@)),
{
    let ghost goal = pairs_of(pairs@).map_values(|pair: (Seq<char>, Seq<char>)| named_pair(pair));
    let mut list: Vec<String> = Vec::new();
    let mut i: usize = 0;
    while i < pairs.len()
        invariant
            i <= pairs@.len(),
            goal == pairs_of(pairs@).map_values(|pair: (Seq<char>, Seq<char>)| named_pair(pair)),
            goal.len() == pairs@.len(),
            texts(list@) == goal.take(i as int),
        decreases pairs.len() - i,
    {
        assert(pairs_of(pairs@)[i as int] == (pairs@[i as int].0@, pairs@[i as int].1@));
        let mut text = "`".to_owned();
        text.append(pairs[i].0.as_str());
        text.append("` and `");
        text.append(pairs[i].1.as_str());
        text.append("`");
        let ghost before = list@;
        list.push(text);
        assert(texts(list@) =~= texts(before).push(goal[i as int]));
        i += 1;
        assert(texts(list@) =~= goal.take(i as int));
    }
    assert(goal.take(i as int) =~= goal);
    join(&list, ", ")
}

/// What reports are made from.
pub struct ReportingModel {
    pub sheet: SheetModel,
    pub verdicts: VerdictsModel,
    /// The code and the message for rules that an open template surface
    /// retains.
    pub retention: Option<(Seq<char>, Seq<char>)>,
    pub safe: bool,
    pub module_refs: Seq<Seq<char>>,
    pub matched_module_refs: Seq<Seq<char>>,
    /// The edits that the stylesheet's file went through so far.
    pub prior_edits: Seq<Seq<EditModel>>,
}

/// The message under a warning.
pub open spec fn warning_message(at: ReportingModel, id: RuleId, code: Seq<char>) -> Seq<char> {
    if code == "batch-stylesheet-conflict"@ {
        "Generated utilities "@ + named_pairs(
            match conflicts_from(at.verdicts.conflicts, id, 0) {
                Some(pairs) => pairs,
                None => seq![],
            },
        ) + " conflict on the same source element, so the contributing rule is retained."@
    } else if code == "unproven-css-module-relationship"@ {
        match rule_text(at.verdicts.unproven, id) {
            Some(message) => message,
            None => "The CSS Module selector relationship could not be proven for every usage."@,
        }
    } else if code == "unproven-source-map"@ {
        "The generated rule does not map uniquely to one authored source rule, so it is retained."@
    } else if code == "shared-preprocessor-source"@ {
        "A Sass partial must be analyzed through every consuming entry, so it is retained."@
    } else if code == "shadowed-scoped-rule"@ {
        "Other package CSS also targets a class this scoped rule matches, so deleting it could change the cascade; the rule is retained."@
    } else {
        "The rule is outside the supported declaration or selector subset."@
    }
}

/// The code and the message for a rule that stays.
pub open spec fn retention_reason(at: ReportingModel, rule: RuleModel) -> (Seq<char>, Seq<char>) {
    match rule.warning {
        Some(code) => (code, warning_message(at, rule.id(), code)),
        None => match at.retention {
            Some(reason) => reason,
            None => if !sheet_is_module(at.sheet) {
                ("retained-global-rule"@, "Global CSS is never deleted automatically."@)
            } else {
                (
                    "unresolved-selector-target"@,
                    "No exclusively supported className references were found."@,
                )
            },
        },
    }
}

/// What reports are made from.
pub struct Reporting<'a> {
    pub sheet: &'a BatchStylesheet,
    pub verdicts: &'a Verdicts<'a>,
    pub retention: &'a Option<(String, String)>,
    pub consumed: &'a Consumed,
    pub prior_edits: &'a Vec<Vec<Edit>>,
}

pub open spec fn pair_model(pair: Option<(String, String)>) -> Option<(Seq<char>, Seq<char>)> {
    match pair {
        Some(pair) => Some((pair.0@, pair.1@)),
        None => None,
    }
}

impl<'a> View for Reporting<'a> {
    type V = ReportingModel;

    open spec fn view(&self) -> ReportingModel {
        ReportingModel {
            sheet: self.sheet@,
            verdicts: self.verdicts@,
            retention: pair_model(*self.retention),
            safe: self.consumed@.safe,
            module_refs: self.consumed@.module_refs,
            matched_module_refs: self.consumed@.matched_module_refs,
            prior_edits: rounds(self.prior_edits@),
        }
    }
}

fn write_warning_message<'a>(at: &Reporting<'a>, id: RuleId, code: &str) -> (result: String)
    ensures
        result@ == warning_message(at@, id, code@),
{
    if same(code, "batch-stylesheet-conflict") {
        let mut message = "Generated utilities ".to_owned();
        match find_conflicts(at.verdicts.conflicts, id) {
            Some(pairs) => {
                message.append(name_pairs(pairs).as_str());
            },
            None => {
                let none: Vec<(String, String)> = Vec::new();
                assert(pairs_of(none@) =~= Seq::empty());
                message.append(name_pairs(&none).as_str());
            },
        }
        message.append(" conflict on the same source element, so the contributing rule is retained.");
        message
    } else if same(code, "unproven-css-module-relationship") {
        match find_rule_text(at.verdicts.unproven, id) {
            Some(message) => copy(message.as_str()),
            None => "The CSS Module selector relationship could not be proven for every usage.".to_owned(),
        }
    } else if same(code, "unproven-source-map") {
        "The generated rule does not map uniquely to one authored source rule, so it is retained.".to_owned()
    } else if same(code, "shared-preprocessor-source") {
        "A Sass partial must be analyzed through every consuming entry, so it is retained.".to_owned()
    } else if same(code, "shadowed-scoped-rule") {
        "Other package CSS also targets a class this scoped rule matches, so deleting it could change the cascade; the rule is retained.".to_owned()
    } else {
        "The rule is outside the supported declaration or selector subset.".to_owned()
    }
}

fn find_retention_reason<'a>(at: &Reporting<'a>, rule: &RulePlan) -> (result: (String, String))
    ensures
        (result.0@, result.1@) == retention_reason(at@, rule@),
{
    match &rule.warning {
        Some(code) => (copy(code.as_str()), write_warning_message(at, rule_id(rule), code.as_str())),
        None => match at.retention {
            Some(reason) => (copy(reason.0.as_str()), copy(reason.1.as_str())),
            None => if !is_module_sheet(at.sheet) {
                ("retained-global-rule".to_owned(), "Global CSS is never deleted automatically.".to_owned())
            } else {
                (
                    "unresolved-selector-target".to_owned(),
                    "No exclusively supported className references were found.".to_owned(),
                )
            },
        },
    }
}

// ---------------------------------------------------------------------------
// Rules
// ---------------------------------------------------------------------------

/// The rule goes: every reference to its class was rewritten, and no other
/// can exist.
pub open spec fn removable(at: ReportingModel, rule: RuleModel) -> bool {
    &&& sheet_is_module(at.sheet)
    &&& at.safe
    &&& rule.warning is None
    &&& rule.authored_span is Some
    &&& rule.key matches Some(KeyModel::Class(name)) && occurrences_of(at.module_refs, name) > 0 && occurrences_of(
        at.matched_module_refs,
        name,
    ) == occurrences_of(at.module_refs, name)
}

/// Where the rule stood before any edit.
pub open spec fn authored_id(at: ReportingModel, rule: RuleModel) -> RuleId {
    match rule.authored_span {
        Some(span) => RuleId {
            start: traced(at.prior_edits, at.prior_edits.len() as int, span.0 as int) as usize,
            end: traced(at.prior_edits, at.prior_edits.len() as int, span.1 as int) as usize,
        },
        None => RuleId { start: 0, end: 0 },
    }
}

/// The report on a rule.
pub open spec fn rule_report(at: ReportingModel, rule: RuleModel) -> ReportModel {
    ReportModel {
        selector: rule.selector,
        status: if removable(at, rule) {
            "converted"@
        } else {
            "retained"@
        },
        candidates: rule.candidates,
        file: at.sheet.css_path,
        rule_id: rule.id(),
        authored_span: authored_id(at, rule),
        stylesheet: 0,
    }
}

/// The warning about a rule. The caller blocked a rule after a Tailwind
/// compilation failure and attributes that warning itself.
pub open spec fn rule_warnings(at: ReportingModel, rule: RuleModel) -> Seq<WarningModel> {
    if removable(at, rule) || rule.warning == Some("candidate-compilation-failure"@) {
        seq![]
    } else {
        let reason = retention_reason(at, rule);
        let place = authored_id(at, rule);
        seq![
            WarningModel {
                code: reason.0,
                file: at.sheet.css_path,
                start: place.start as int,
                end: place.end as int,
                message: reason.1,
            },
        ]
    }
}

/// What becomes of rules.
pub struct ReportedModel {
    /// The edits that delete the rules that go.
    pub edits: Seq<EditModel>,
    pub reports: Seq<ReportModel>,
    pub warnings: Seq<WarningModel>,
    pub converted: int,
    pub retained: int,
}

/// What becomes of the first `n` rules.
pub open spec fn reported(at: ReportingModel, rules: Seq<RuleModel>, n: int) -> ReportedModel
    decreases n,
{
    if n <= 0 {
        ReportedModel { edits: seq![], reports: seq![], warnings: seq![], converted: 0, retained: 0 }
    } else {
        let before = reported(at, rules, n - 1);
        let rule = rules[n - 1];
        let goes = removable(at, rule);
        ReportedModel {
            edits: if goes {
                before.edits.push(
                    EditModel {
                        start: (rule.authored_span->0).0 as int,
                        end: (rule.authored_span->0).1 as int,
                        replacement: seq![],
                    },
                )
            } else {
                before.edits
            },
            reports: before.reports.push(rule_report(at, rule)),
            warnings: before.warnings + rule_warnings(at, rule),
            converted: before.converted + if goes {
                1int
            } else {
                0
            },
            retained: before.retained + if goes {
                0int
            } else {
                1
            },
        }
    }
}

/// What becomes of rules.
pub struct Reported {
    pub edits: Vec<Edit>,
    pub reports: Vec<RuleReport>,
    pub warnings: Vec<Warning>,
    pub converted: usize,
    pub retained: usize,
}

impl View for Reported {
    type V = ReportedModel;

    open spec fn view(&self) -> ReportedModel {
        ReportedModel {
            edits: views(self.edits@),
            reports: views(self.reports@),
            warnings: views(self.warnings@),
            converted: self.converted as int,
            retained: self.retained as int,
        }
    }
}

fn is_removable<'a>(at: &Reporting<'a>, rule: &RulePlan) -> (result: bool)
    ensures
        result == removable(at@, rule@),
{
    if !is_module_sheet(at.sheet) || !at.consumed.safe || rule.warning.is_some() || rule.authored_span.is_none() {
        return false;
    }
    match &rule.key {
        Some(SelectorKey::Class(name)) => {
            let count = at.consumed.module_refs.count(name.as_str());
            count > 0 && at.consumed.matched_module_refs.count(name.as_str()) == count
        },
        _ => false,
    }
}

fn find_authored_id<'a>(at: &Reporting<'a>, rule: &RulePlan) -> (result: RuleId)
    ensures
        result == authored_id(at@, rule@),
{
    assert(rounds(at.prior_edits@).len() == at.prior_edits@.len());
    match rule.authored_span {
        Some(span) => RuleId {
            start: original_offset(at.prior_edits, span.0),
            end: original_offset(at.prior_edits, span.1),
        },
        None => RuleId { start: 0, end: 0 },
    }
}

/// What becomes of rules.
pub fn report_rules<'a>(at: &Reporting<'a>, rules: &Vec<RulePlan>) -> (result: Reported)
    ensures
        result@ == reported(at@, views(rules@), rules@.len() as int),
{
    let mut result = Reported {
        edits: Vec::new(),
        reports: Vec::new(),
        warnings: Vec::new(),
        converted: 0,
        retained: 0,
    };
    assert(result@.edits =~= Seq::empty());
    assert(result@.reports =~= Seq::empty());
    assert(result@.warnings =~= Seq::empty());
    let mut n: usize = 0;
    while n < rules.len()
        invariant
            n <= rules@.len(),
            result.converted <= n,
            result.retained <= n,
            result@ == reported(at@, views(rules@), n as int),
        decreases rules.len() - n,
    {
        let rule = &rules[n];
        assert(views(rules@)[n as int] == rule@);
        let ghost before = result@;
        let goes = is_removable(at, rule);
        let place = find_authored_id(at, rule);
        if goes {
            result.converted += 1;
            if let Some(span) = rule.authored_span {
                let ghost known = result.edits@;
                let edit = Edit::removal(span.0, span.1);
                let ghost model = edit@;
                result.edits.push(edit);
                assert(views(result.edits@) =~= views(known).push(model));
            }
            assert(before.warnings + Seq::<WarningModel>::empty() =~= before.warnings);
        } else {
            result.retained += 1;
            if !has_warning(rule, "candidate-compilation-failure") {
                let (code, message) = find_retention_reason(at, rule);
                let ghost known = result.warnings@;
                let warning = Warning::new(
                    code.as_str(),
                    at.sheet.css_path.as_str(),
                    (place.start, place.end),
                    message,
                );
                let ghost model = warning@;
                result.warnings.push(warning);
                assert(views(result.warnings@) =~= views(known) + seq![model]);
            } else {
                assert(before.warnings + Seq::<WarningModel>::empty() =~= before.warnings);
            }
        }
        let ghost known = result.reports@;
        let report = RuleReport {
            selector: copy(rule.selector.as_str()),
            status: if goes {
                "converted".to_owned()
            } else {
                "retained".to_owned()
            },
            candidates: copy_texts(&rule.candidates),
            file: copy(at.sheet.css_path.as_str()),
            rule_id: rule_id(rule),
            authored_span: place,
            stylesheet: 0,
        };
        let ghost model = report@;
        result.reports.push(report);
        assert(views(result.reports@) =~= views(known).push(model));
        n += 1;
    }
    result
}

// ---------------------------------------------------------------------------
// Laws
// ---------------------------------------------------------------------------

/// Every rule is reported once, in order, as converted or as retained, and
/// the two counts add up.
pub proof fn every_rule_is_reported(at: ReportingModel, rules: Seq<RuleModel>, n: int)
    requires
        0 <= n <= rules.len(),
    ensures
        reported(at, rules, n).reports.len() == n,
        reported(at, rules, n).converted + reported(at, rules, n).retained == n,
        reported(at, rules, n).edits.len() == reported(at, rules, n).converted,
        forall|i: int| 0 <= i < n ==> #[trigger] reported(at, rules, n).reports[i] == rule_report(at, rules[i]),
    decreases n,
{
    if n > 0 {
        every_rule_is_reported(at, rules, n - 1);
    }
}

/// Global CSS is never deleted: no rule of a stylesheet that is not a CSS
/// Module goes.
pub proof fn global_rules_are_never_deleted(at: ReportingModel, rules: Seq<RuleModel>, n: int)
    requires
        0 <= n <= rules.len(),
        !sheet_is_module(at.sheet),
    ensures
        reported(at, rules, n).edits.len() == 0,
        reported(at, rules, n).converted == 0,
        reported(at, rules, n).retained == n,
    decreases n,
{
    if n > 0 {
        global_rules_are_never_deleted(at, rules, n - 1);
    }
}

/// A rule is deleted only where it carries no warning, the references to the
/// module are safe, its class is used, and every use of it was rewritten.
pub proof fn deleted_rules_have_no_reference_left(at: ReportingModel, rule: RuleModel)
    requires
        removable(at, rule),
    ensures
        at.safe,
        rule.warning is None,
        rule.key matches Some(KeyModel::Class(name)) && 0 < occurrences_of(at.module_refs, name) == occurrences_of(
            at.matched_module_refs,
            name,
        ),
{
}

/// An edit that deletes the rule.
pub open spec fn deletes(edit: EditModel, rule: RuleModel) -> bool {
    &&& rule.authored_span matches Some(span) && edit.start == span.0 && edit.end == span.1
    &&& edit.replacement.len() == 0
}

/// The edit deletes one of the first `n` rules, and that rule may go.
pub open spec fn is_deletion(at: ReportingModel, rules: Seq<RuleModel>, n: int, edit: EditModel) -> bool {
    exists|i: int| 0 <= i < n && removable(at, rules[i]) && #[trigger] deletes(edit, rules[i])
}

/// Rules that stay are explained: each rule is either deleted, with no warning
/// on it, or has a warning that gives the reason at its place. Only a rule
/// whose candidates failed to compile has its warning from elsewhere. And
/// every deletion is that of such a rule.
pub proof fn retained_rules_are_explained(at: ReportingModel, rules: Seq<RuleModel>, n: int)
    requires
        0 <= n <= rules.len(),
    ensures
        forall|i: int|
            0 <= i < n && !removable(at, #[trigger] rules[i]) && rules[i].warning != Some(
                "candidate-compilation-failure"@,
            ) ==> reported(at, rules, n).warnings.contains(rule_warnings(at, rules[i])[0]),
        forall|i: int|
            0 <= i < n && removable(at, #[trigger] rules[i]) ==> exists|k: int|
                0 <= k < reported(at, rules, n).edits.len() && deletes(
                    #[trigger] reported(at, rules, n).edits[k],
                    rules[i],
                ),
        forall|k: int|
            0 <= k < reported(at, rules, n).edits.len() ==> is_deletion(
                at,
                rules,
                n,
                #[trigger] reported(at, rules, n).edits[k],
            ),
    decreases n,
{
    if n > 0 {
        retained_rules_are_explained(at, rules, n - 1);
        let before = reported(at, rules, n - 1);
        let after = reported(at, rules, n);
        let last = rules[n - 1];
        assert forall|i: int|
            0 <= i < n && !removable(at, #[trigger] rules[i]) && rules[i].warning != Some(
                "candidate-compilation-failure"@,
            ) implies after.warnings.contains(rule_warnings(at, rules[i])[0]) by {
            let warning = rule_warnings(at, rules[i])[0];
            if i < n - 1 {
                let k = choose|k: int| 0 <= k < before.warnings.len() && before.warnings[k] == warning;
                assert(after.warnings[k] == warning);
            } else {
                assert(after.warnings[before.warnings.len() as int] == warning);
            }
        }
        assert forall|i: int| 0 <= i < n && removable(at, #[trigger] rules[i]) implies exists|k: int|
            0 <= k < after.edits.len() && deletes(#[trigger] after.edits[k], rules[i]) by {
            if i < n - 1 {
                let k = choose|k: int|
                    0 <= k < before.edits.len() && deletes(#[trigger] before.edits[k], rules[i]);
                assert(after.edits[k] == before.edits[k]);
            } else {
                assert(deletes(after.edits[before.edits.len() as int], last));
            }
        }
        assert forall|k: int| 0 <= k < after.edits.len() implies is_deletion(
            at,
            rules,
            n,
            #[trigger] after.edits[k],
        ) by {
            let edit = after.edits[k];
            if k < before.edits.len() {
                assert(is_deletion(at, rules, n - 1, before.edits[k]));
                let i = choose|i: int|
                    0 <= i < n - 1 && removable(at, rules[i]) && #[trigger] deletes(edit, rules[i]);
                assert(deletes(edit, rules[i]));
            } else {
                assert(deletes(edit, rules[n - 1]));
            }
        }
    }
}

} // verus!
