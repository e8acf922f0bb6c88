//! The sources that a migration reads: files, and the elements and
//! stylesheet links of the HTML-like ones.
use crate::edit::{rounds, Edit, EditModel};
use crate::text::{
    copy_maybe, copy_texts, list_has, maybe, maybe_texts, maybe_view, same, split_words, texts, views, words, Separator,
};
use vstd::prelude::*;

verus! {

/// An attribute value of an element, or a literal inside a directive
/// expression, with the span of the bytes that an edit of it replaces.
pub struct HtmlAttribute {
    pub value: String,
    pub start: usize,
    pub end: usize,
    /// No such attribute exists yet: the span is where one is inserted.
    pub synthetic: bool,
    pub writable: bool,
    /// The authored text of a JavaScript literal or object key.
    pub raw_value: Option<String>,
    /// The quote of the JavaScript literal.
    pub js_quote: Option<String>,
    /// The quote of the attribute that holds the directive expression.
    pub html_quote: Option<String>,
    /// The site is an object key that has to be quoted before it can hold
    /// more than an identifier.
    pub quote_key: bool,
    /// The object key is also its value.
    pub object_shorthand: bool,
}

/// The model of an [`HtmlAttribute`].
pub struct AttributeModel {
    pub value: Seq<char>,
    pub start: int,
    pub end: int,
    pub synthetic: bool,
    pub writable: bool,
    pub raw_value: Option<Seq<char>>,
    pub js_quote: Option<Seq<char>>,
    pub html_quote: Option<Seq<char>>,
    pub quote_key: bool,
    pub object_shorthand: bool,
}

impl View for HtmlAttribute {
    type V = AttributeModel;

    open spec fn view(&self) -> AttributeModel {
        AttributeModel {
            value: self.value@,
            start: self.start as int,
            end: self.end as int,
            synthetic: self.synthetic,
            writable: self.writable,
            raw_value: maybe(self.raw_value),
            js_quote: maybe(self.js_quote),
            html_quote: maybe(self.html_quote),
            quote_key: self.quote_key,
            object_shorthand: self.object_shorthand,
        }
    }
}

impl HtmlAttribute {
    /// An equal attribute.
    pub fn copy(&self) -> (result: HtmlAttribute)
        ensures
            result == *self,
    {
        HtmlAttribute {
            value: self.value.clone(),
            start: self.start,
            end: self.end,
            synthetic: self.synthetic,
            writable: self.writable,
            raw_value: copy_maybe(&self.raw_value),
            js_quote: copy_maybe(&self.js_quote),
            html_quote: copy_maybe(&self.html_quote),
            quote_key: self.quote_key,
            object_shorthand: self.object_shorthand,
        }
    }
}

impl Clone for HtmlAttribute {
    fn clone(&self) -> (result: Self)
        ensures
            result == *self,
    {
        self.copy()
    }
}

/// A proven `:class="$style.x"` site: the module class name and the full
/// attribute span to remove when the reference is rewritten.
pub struct ModuleBinding {
    pub name: String,
    pub start: usize,
    pub end: usize,
}

/// The model of a [`ModuleBinding`].
pub struct BindingModel {
    pub name: Seq<char>,
    pub start: int,
    pub end: int,
}

impl View for ModuleBinding {
    type V = BindingModel;

    open spec fn view(&self) -> BindingModel {
        BindingModel { name: self.name@, start: self.start as int, end: self.end as int }
    }
}

/// An element of an HTML-like source.
pub struct HtmlElement {
    pub class_attribute: Option<HtmlAttribute>,
    pub id_attribute: Option<HtmlAttribute>,
    /// Where the element's node starts.
    pub node_start: Option<usize>,
    /// Selector surface to match when the writable site is a Vue component
    /// call whose attributes fall through to a different root element.
    pub match_classes: Option<Vec<String>>,
    /// The classes whose candidates may be written at this site.
    pub write_classes: Option<Vec<String>>,
    pub match_ids: Option<Vec<String>>,
    pub match_tag: Option<String>,
    /// Element tag name, provided by the Vue lowering for shadow matching.
    pub tag: Option<String>,
    /// Optional per-element stylesheet reachability used by cross-file Vue
    /// component proofs. Empty means every file-level HTML context applies.
    pub css_paths: Vec<String>,
    pub class_opaque: bool,
    pub module_binding: Option<ModuleBinding>,
}

/// The model of an [`HtmlElement`].
pub struct ElementModel {
    pub class_attribute: Option<AttributeModel>,
    pub id_attribute: Option<AttributeModel>,
    pub node_start: Option<usize>,
    pub match_classes: Option<Seq<Seq<char>>>,
    pub write_classes: Option<Seq<Seq<char>>>,
    pub match_ids: Option<Seq<Seq<char>>>,
    pub match_tag: Option<Seq<char>>,
    pub tag: Option<Seq<char>>,
    pub css_paths: Seq<Seq<char>>,
    pub class_opaque: bool,
    pub module_binding: Option<BindingModel>,
}

impl View for HtmlElement {
    type V = ElementModel;

    open spec fn view(&self) -> ElementModel {
        ElementModel {
            class_attribute: maybe_view(self.class_attribute),
            id_attribute: maybe_view(self.id_attribute),
            node_start: self.node_start,
            match_classes: maybe_texts(self.match_classes),
            write_classes: maybe_texts(self.write_classes),
            match_ids: maybe_texts(self.match_ids),
            match_tag: maybe(self.match_tag),
            tag: maybe(self.tag),
            css_paths: texts(self.css_paths@),
            class_opaque: self.class_opaque,
            module_binding: maybe_view(self.module_binding),
        }
    }
}

/// A stylesheet link of an HTML-like source.
pub struct HtmlStylesheet {
    pub css_path: String,
    pub variants: Vec<String>,
    pub direct: bool,
    pub analyzable: bool,
}

/// The model of an [`HtmlStylesheet`].
pub struct ContextModel {
    pub css_path: Seq<char>,
    pub variants: Seq<Seq<char>>,
    pub direct: bool,
    pub analyzable: bool,
}

impl View for HtmlStylesheet {
    type V = ContextModel;

    open spec fn view(&self) -> ContextModel {
        ContextModel {
            css_path: self.css_path@,
            variants: texts(self.variants@),
            direct: self.direct,
            analyzable: self.analyzable,
        }
    }
}

/// A source file.
pub struct SourceFile {
    pub path: String,
    pub source: String,
    pub writable: bool,
    pub html_elements: Vec<HtmlElement>,
    pub html_stylesheets: Vec<HtmlStylesheet>,
    pub html_references_safe: bool,
    pub html_script_text: String,
    /// The rounds of edits that were applied to the source so far.
    pub prior_edits: Vec<Vec<Edit>>,
}

/// The model of a [`SourceFile`].
pub struct FileModel {
    pub path: Seq<char>,
    pub source: Seq<char>,
    pub writable: bool,
    pub html_elements: Seq<ElementModel>,
    pub html_stylesheets: Seq<ContextModel>,
    pub html_references_safe: bool,
    pub html_script_text: Seq<char>,
    pub prior_edits: Seq<Seq<EditModel>>,
}

impl View for SourceFile {
    type V = FileModel;

    open spec fn view(&self) -> FileModel {
        FileModel {
            path: self.path@,
            source: self.source@,
            writable: self.writable,
            html_elements: views(self.html_elements@),
            html_stylesheets: views(self.html_stylesheets@),
            html_references_safe: self.html_references_safe,
            html_script_text: self.html_script_text@,
            prior_edits: rounds(self.prior_edits@),
        }
    }
}

/// The classes of an attribute value: only DOM (ASCII) whitespace separates.
pub open spec fn tokens(value: Seq<char>) -> Seq<Seq<char>> {
    words(value, Separator::AsciiWhitespace)
}

/// The classes of an attribute value.
pub fn class_tokens(value: &str) -> (result: Vec<String>)
    ensures
        texts(result@) == tokens(value@),
{
    split_words(value, Separator::AsciiWhitespace)
}

/// The classes that selectors match on the element.
pub open spec fn classes_of(element: ElementModel) -> Seq<Seq<char>> {
    match (element.match_classes, element.class_attribute) {
        (Some(classes), _) => classes,
        (None, Some(attribute)) => tokens(attribute.value),
        (None, None) => seq![],
    }
}

/// The ids that selectors match on the element.
pub open spec fn ids_of(element: ElementModel) -> Seq<Seq<char>> {
    match (element.match_ids, element.id_attribute) {
        (Some(ids), _) => ids,
        (None, Some(attribute)) => seq![attribute.value],
        (None, None) => seq![],
    }
}

/// The tag that selectors match on the element.
pub open spec fn tag_of(element: ElementModel) -> Option<Seq<char>> {
    match element.match_tag {
        Some(tag) => Some(tag),
        None => element.tag,
    }
}

/// The stylesheet reaches the element.
pub open spec fn in_context(element: ElementModel, css_path: Seq<char>) -> bool {
    element.css_paths.len() == 0 || element.css_paths.contains(css_path)
}

/// The classes whose candidates may be written at the element's site.
pub open spec fn writable_of(element: ElementModel) -> Seq<Seq<char>> {
    match element.write_classes {
        Some(classes) => classes,
        None => classes_of(element),
    }
}

/// The classes that selectors match on an element.
pub fn element_classes(element: &HtmlElement) -> (result: Vec<String>)
    ensures
        texts(result@) == classes_of(element@),
{
    match &element.match_classes {
        Some(classes) => copy_texts(classes),
        None => match &element.class_attribute {
            Some(attribute) => class_tokens(attribute.value.as_str()),
            None => {
                let result: Vec<String> = Vec::new();
                assert(texts(result@) =~= Seq::<Seq<char>>::empty());
                result
            },
        },
    }
}

/// The ids that selectors match on an element.
pub fn element_ids(element: &HtmlElement) -> (result: Vec<String>)
    ensures
        texts(result@) == ids_of(element@),
{
    match &element.match_ids {
        Some(ids) => copy_texts(ids),
        None => {
            let mut result: Vec<String> = Vec::new();
            if let Some(attribute) = &element.id_attribute {
                result.push(attribute.value.clone());
            }
            assert(texts(result@) =~= ids_of(element@));
            result
        },
    }
}

/// The tag that selectors match on an element.
pub fn element_tag(element: &HtmlElement) -> (result: Option<String>)
    ensures
        maybe(result) == tag_of(element@),
{
    match &element.match_tag {
        Some(tag) => Some(tag.clone()),
        None => copy_maybe(&element.tag),
    }
}

/// Whether the stylesheet reaches the element.
pub fn element_has_context(element: &HtmlElement, css_path: &str) -> (result: bool)
    ensures
        result == in_context(element@, css_path@),
{
    element.css_paths.len() == 0 || list_has(&element.css_paths, css_path)
}

/// The classes whose candidates may be written at the element's site.
pub fn writable_element_classes(element: &HtmlElement) -> (result: Vec<String>)
    ensures
        texts(result@) == writable_of(element@),
{
    match &element.write_classes {
        Some(classes) => copy_texts(classes),
        None => element_classes(element),
    }
}

/// The analyzable link of `contexts` to `css_path` at index `i`.
pub open spec fn links(context: ContextModel, css_path: Seq<char>) -> bool {
    context.analyzable && context.css_path == css_path
}

/// The analyzable links to a stylesheet among the first `n`.
pub open spec fn links_to(contexts: Seq<ContextModel>, css_path: Seq<char>, n: int) -> Seq<ContextModel>
    decreases n,
{
    if n <= 0 {
        seq![]
    } else if links(contexts[n - 1], css_path) {
        links_to(contexts, css_path, n - 1).push(contexts[n - 1])
    } else {
        links_to(contexts, css_path, n - 1)
    }
}

/// The contexts through which a file consumes `css_path` with an analyzable
/// relationship.
pub open spec fn contexts_of(file: FileModel, css_path: Seq<char>) -> Seq<ContextModel> {
    links_to(file.html_stylesheets, css_path, file.html_stylesheets.len() as int)
}

impl HtmlStylesheet {
    /// An equal link.
    pub fn copy(&self) -> (result: HtmlStylesheet)
        ensures
            result@ == self@,
    {
        HtmlStylesheet {
            css_path: self.css_path.clone(),
            variants: copy_texts(&self.variants),
            direct: self.direct,
            analyzable: self.analyzable,
        }
    }
}

impl SourceFile {
    /// The stylesheet-link contexts through which this file consumes
    /// `css_path` with an analyzable relationship.
    pub fn analyzable_contexts(&self, css_path: &str) -> (result: Vec<HtmlStylesheet>)
        ensures
            views(result@) == contexts_of(self@, css_path@),
    {
        let mut result: Vec<HtmlStylesheet> = Vec::new();
        let mut i: usize = 0;
        assert(views(result@) =~= Seq::<ContextModel>::empty());
        while i < self.html_stylesheets.len()
            invariant
                i <= self.html_stylesheets@.len(),
                views(result@) == links_to(self@.html_stylesheets, css_path@, i as int),
            decreases self.html_stylesheets.len() - i,
        {
            let context = &self.html_stylesheets[i];
            assert(self@.html_stylesheets[i as int] == context@);
            if context.analyzable && same(context.css_path.as_str(), css_path) {
                let ghost before = result@;
                result.push(context.copy());
                assert(views(result@) =~= views(before).push(context@));
            }
            i += 1;
        }
        result
    }

    /// Whether the file consumes `css_path` with an analyzable relationship.
    pub fn has_analyzable_context(&self, css_path: &str) -> (result: bool)
        ensures
            result == (contexts_of(self@, css_path@).len() > 0),
    {
        let mut i: usize = 0;
        while i < self.html_stylesheets.len()
            invariant
                i <= self.html_stylesheets@.len(),
                links_to(self@.html_stylesheets, css_path@, i as int).len() == 0,
            decreases self.html_stylesheets.len() - i,
        {
            let context = &self.html_stylesheets[i];
            assert(self@.html_stylesheets[i as int] == context@);
            if context.analyzable && same(context.css_path.as_str(), css_path) {
                proof {
                    lemma_links_grow(self@.html_stylesheets, css_path@, i + 1, self@.html_stylesheets.len() as int);
                }
                return true;
            }
            i += 1;
        }
        false
    }
}

proof fn lemma_links_grow(contexts: Seq<ContextModel>, css_path: Seq<char>, n: int, m: int)
    requires
        n <= m,
    ensures
        links_to(contexts, css_path, n).len() <= links_to(contexts, css_path, m).len(),
    decreases m - n,
{
    if n < m {
        lemma_links_grow(contexts, css_path, n, m - 1);
    }
}

} // verus!
