//! Grammar formats of xgrammar structural tags, and the JSON that spells each of them.
use crate::json::{Json, JsonTree, entry_trees, lemma_array_tree, lemma_object_tree, trees};
use vstd::prelude::*;

verus! {

/// The regular expressions that argument values are held to.
pub enum Pattern {
    /// One character or more.
    NonEmpty,
    /// Any characters, or none.
    Anything,
    /// A decimal number, with or without a sign and a fraction.
    Decimal,
}

/// A grammar for a piece of the completion.
#[verifier::ext_equal]
pub enum Format {
    /// Any text.
    AnyText,
    /// Exactly this text.
    ConstString(Seq<char>),
    /// Text that the expression matches whole.
    Regex(Pattern),
    /// A JSON text that fits a schema.
    JsonSchema(JsonTree),
    /// One format after the other.
    Sequence(Seq<Format>),
    /// One of the formats.
    Or(Seq<Format>),
    /// The format, or nothing.
    Optional(Box<Format>),
    /// The format between two markers.
    Tag { begin: Seq<char>, content: Box<Format>, end: Seq<char> },
    /// Tags with a separator between each and the next.
    TagsWithSeparator {
        tags: Seq<Format>,
        separator: Seq<char>,
        at_least_one: bool,
        stop_after_first: bool,
    },
    /// Free text in which each trigger, once written, must be followed by its format.
    Dispatch { rules: Seq<(Seq<char>, Format)>, repeat: bool },
}

/// The regular expression as it is written in the tag.
pub open spec fn pattern_text(pattern: Pattern) -> Seq<char> {
    match pattern {
        Pattern::NonEmpty => "[\\s\\S]+"@,
        Pattern::Anything => "[\\s\\S]*"@,
        Pattern::Decimal => "-?[0-9]+(\\.[0-9]+)?"@,
    }
}

/// A `type` entry.
pub open spec fn type_entry(name: Seq<char>) -> (Seq<char>, JsonTree) {
    ("type"@, JsonTree::Text(name))
}

/// An `excludes` entry that excludes nothing.
pub open spec fn no_excludes() -> (Seq<char>, JsonTree) {
    ("excludes"@, JsonTree::Array(Seq::empty()))
}

/// The JSON of [`Format::AnyText`].
pub open spec fn any_text_tree() -> JsonTree {
    JsonTree::Object(seq![type_entry("any_text"@), no_excludes()])
}

/// The JSON of [`Format::ConstString`].
pub open spec fn const_string_tree(value: Seq<char>) -> JsonTree {
    JsonTree::Object(seq![type_entry("const_string"@), ("value"@, JsonTree::Text(value))])
}

/// The JSON of [`Format::Regex`].
pub open spec fn regex_tree(pattern: Seq<char>) -> JsonTree {
    JsonTree::Object(seq![type_entry("regex"@), ("pattern"@, JsonTree::Text(pattern))])
}

/// The JSON of [`Format::JsonSchema`].
pub open spec fn json_schema_tree(schema: JsonTree) -> JsonTree {
    JsonTree::Object(
        seq![
            type_entry("json_schema"@),
            ("json_schema"@, schema),
            ("style"@, JsonTree::Text("json"@)),
        ],
    )
}

/// The JSON of a format named `name` that holds a list of others.
pub open spec fn elements_tree(name: Seq<char>, elements: Seq<JsonTree>) -> JsonTree {
    JsonTree::Object(seq![type_entry(name), ("elements"@, JsonTree::Array(elements))])
}

/// The JSON of [`Format::Optional`].
pub open spec fn optional_tree(content: JsonTree) -> JsonTree {
    JsonTree::Object(seq![type_entry("optional"@), ("content"@, content)])
}

/// The JSON of [`Format::Tag`].
pub open spec fn tag_tree(begin: Seq<char>, content: JsonTree, end: Seq<char>) -> JsonTree {
    JsonTree::Object(
        seq![
            type_entry("tag"@),
            ("begin"@, JsonTree::Text(begin)),
            ("content"@, content),
            ("end"@, JsonTree::Text(end)),
        ],
    )
}

/// The JSON of [`Format::TagsWithSeparator`].
pub open spec fn tags_with_separator_tree(
    tags: Seq<JsonTree>,
    separator: Seq<char>,
    at_least_one: bool,
    stop_after_first: bool,
) -> JsonTree {
    JsonTree::Object(
        seq![
            type_entry("tags_with_separator"@),
            ("tags"@, JsonTree::Array(tags)),
            ("separator"@, JsonTree::Text(separator)),
            ("at_least_one"@, JsonTree::Bool(at_least_one)),
            ("stop_after_first"@, JsonTree::Bool(stop_after_first)),
        ],
    )
}

/// The JSON of one rule of a [`Format::Dispatch`].
pub open spec fn rule_tree(trigger: Seq<char>, content: JsonTree) -> JsonTree {
    JsonTree::Array(seq![JsonTree::Text(trigger), content])
}

/// The JSON of [`Format::Dispatch`].
pub open spec fn dispatch_tree(rules: Seq<JsonTree>, repeat: bool) -> JsonTree {
    JsonTree::Object(
        seq![
            type_entry("dispatch"@),
            ("rules"@, JsonTree::Array(rules)),
            ("loop"@, JsonTree::Bool(repeat)),
            no_excludes(),
        ],
    )
}

/// The JSON of a whole structural tag.
pub open spec fn structural_tag_tree(format: JsonTree) -> JsonTree {
    JsonTree::Object(seq![type_entry("structural_tag"@), ("format"@, format)])
}

impl Format {
    /// The JSON that spells this format.
    pub open spec fn render(self) -> JsonTree
        decreases self,
    {
        match self {
            Format::AnyText => any_text_tree(),
            Format::ConstString(value) => const_string_tree(value),
            Format::Regex(pattern) => regex_tree(pattern_text(pattern)),
            Format::JsonSchema(schema) => json_schema_tree(schema),
            Format::Sequence(elements) => elements_tree(
                "sequence"@,
                Format::render_each(elements),
            ),
            Format::Or(elements) => elements_tree("or"@, Format::render_each(elements)),
            Format::Optional(content) => optional_tree(content.render()),
            Format::Tag { begin, content, end } => tag_tree(begin, content.render(), end),
            Format::TagsWithSeparator {
                tags,
                separator,
                at_least_one,
                stop_after_first,
            } => tags_with_separator_tree(
                Format::render_each(tags),
                separator,
                at_least_one,
                stop_after_first,
            ),
            Format::Dispatch { rules, repeat } => dispatch_tree(
                Format::render_rules(rules),
                repeat,
            ),
        }
    }

    /// The JSON that spells each of these formats.
    pub open spec fn render_each(formats: Seq<Format>) -> Seq<JsonTree>
        decreases formats,
    {
        if formats.len() == 0 {
            Seq::empty()
        } else {
            Format::render_each(formats.drop_last()).push(formats.last().render())
        }
    }

    /// The JSON that spells each of these rules.
    pub open spec fn render_rules(rules: Seq<(Seq<char>, Format)>) -> Seq<JsonTree>
        decreases rules,
    {
        if rules.len() == 0 {
            Seq::empty()
        } else {
            Format::render_rules(rules.drop_last()).push(
                rule_tree(rules.last().0, rules.last().1.render()),
            )
        }
    }
}

/// Each format of a list is spelt in its place.
pub broadcast proof fn lemma_render_each(formats: Seq<Format>)
    ensures
        #[trigger] Format::render_each(formats) =~= Seq::new(
            formats.len(),
            |i: int| formats[i].render(),
        ),
    decreases formats.len(),
{
    if formats.len() > 0 {
        lemma_render_each(formats.drop_last());
    }
}

/// Each rule of a list is spelt in its place.
pub broadcast proof fn lemma_render_rules(rules: Seq<(Seq<char>, Format)>)
    ensures
        #[trigger] Format::render_rules(rules) =~= Seq::new(
            rules.len(),
            |i: int| rule_tree(rules[i].0, rules[i].1.render()),
        ),
    decreases rules.len(),
{
    if rules.len() > 0 {
        lemma_render_rules(rules.drop_last());
    }
}

/// A list of values that spell `formats` makes the list that spells them.
pub proof fn lemma_spelt(values: Seq<Json>, formats: Seq<Format>)
    requires
        values.len() == formats.len(),
        forall|i: int| 0 <= i < formats.len() ==> (#[trigger] values[i])@ == formats[i].render(),
    ensures
        trees(values) == Format::render_each(formats),
{
    lemma_render_each(formats);
    assert(trees(values) =~= Format::render_each(formats));
}

fn text(s: &str) -> (r: Json)
    ensures
        r@ == JsonTree::Text(s@),
{
    Json::Text(s.to_owned())
}

fn entry(key: &str, value: Json) -> (r: (String, Json))
    ensures
        r.0@ == key@,
        r.1@ == value@,
{
    (key.to_owned(), value)
}

fn empty_array() -> (r: Json)
    ensures
        r@ == JsonTree::Array(Seq::empty()),
{
    broadcast use lemma_array_tree;

    let none: Vec<Json> = Vec::new();
    assert(trees(none@) =~= Seq::empty());
    Json::Array(none)
}

/// `{"type": "any_text", "excludes": []}`
pub(crate) fn any_text() -> (r: Json)
    ensures
        r@ == any_text_tree(),
{
    broadcast use lemma_object_tree;

    let entries = vec![entry("type", text("any_text")), entry("excludes", empty_array())];
    assert(entry_trees(entries@) =~= any_text_tree()->Object_0);
    Json::Object(entries)
}

/// `{"type": "const_string", "value": value}`
pub(crate) fn const_string(value: &str) -> (r: Json)
    ensures
        r@ == const_string_tree(value@),
{
    broadcast use lemma_object_tree;

    let entries = vec![entry("type", text("const_string")), entry("value", text(value))];
    assert(entry_trees(entries@) =~= const_string_tree(value@)->Object_0);
    Json::Object(entries)
}

/// `{"type": "regex", "pattern": pattern}`
pub(crate) fn regex(pattern: &str) -> (r: Json)
    ensures
        r@ == regex_tree(pattern@),
{
    broadcast use lemma_object_tree;

    let entries = vec![entry("type", text("regex")), entry("pattern", text(pattern))];
    assert(entry_trees(entries@) =~= regex_tree(pattern@)->Object_0);
    Json::Object(entries)
}

/// `{"type": "json_schema", "json_schema": schema, "style": "json"}`
pub(crate) fn json_schema(schema: Json) -> (r: Json)
    ensures
        r@ == json_schema_tree(schema@),
{
    broadcast use lemma_object_tree;

    let ghost tree = json_schema_tree(schema@);
    let entries = vec![
        entry("type", text("json_schema")),
        entry("json_schema", schema),
        entry("style", text("json")),
    ];
    assert(entry_trees(entries@) =~= tree->Object_0);
    Json::Object(entries)
}

fn named_elements(name: &str, elements: Vec<Json>) -> (r: Json)
    ensures
        r@ == elements_tree(name@, trees(elements@)),
{
    broadcast use {lemma_array_tree, lemma_object_tree};

    let ghost tree = elements_tree(name@, trees(elements@));
    let entries = vec![entry("type", text(name)), entry("elements", Json::Array(elements))];
    assert(entry_trees(entries@) =~= tree->Object_0);
    Json::Object(entries)
}

/// `{"type": "sequence", "elements": elements}`
pub(crate) fn sequence(elements: Vec<Json>) -> (r: Json)
    ensures
        r@ == elements_tree("sequence"@, trees(elements@)),
{
    named_elements("sequence", elements)
}

/// `{"type": "or", "elements": elements}`
pub(crate) fn either(elements: Vec<Json>) -> (r: Json)
    ensures
        r@ == elements_tree("or"@, trees(elements@)),
{
    named_elements("or", elements)
}

/// `{"type": "optional", "content": content}`
pub(crate) fn optional(content: Json) -> (r: Json)
    ensures
        r@ == optional_tree(content@),
{
    broadcast use lemma_object_tree;

    let ghost tree = optional_tree(content@);
    let entries = vec![entry("type", text("optional")), entry("content", content)];
    assert(entry_trees(entries@) =~= tree->Object_0);
    Json::Object(entries)
}

/// `{"type": "tag", "begin": begin, "content": content, "end": end}`
pub(crate) fn tag(begin: &str, content: Json, end: &str) -> (r: Json)
    ensures
        r@ == tag_tree(begin@, content@, end@),
{
    broadcast use lemma_object_tree;

    let ghost tree = tag_tree(begin@, content@, end@);
    let entries = vec![
        entry("type", text("tag")),
        entry("begin", text(begin)),
        entry("content", content),
        entry("end", text(end)),
    ];
    assert(entry_trees(entries@) =~= tree->Object_0);
    Json::Object(entries)
}

/// `{"type": "tags_with_separator", "tags": tags, "separator": separator, "at_least_one":
/// at_least_one, "stop_after_first": stop_after_first}`
pub(crate) fn tags_with_separator(
    tags: Vec<Json>,
    separator: &str,
    at_least_one: bool,
    stop_after_first: bool,
) -> (r: Json)
    ensures
        r@ == tags_with_separator_tree(
            trees(tags@),
            separator@,
            at_least_one,
            stop_after_first,
        ),
{
    broadcast use {lemma_array_tree, lemma_object_tree};

    let ghost tree = tags_with_separator_tree(
        trees(tags@),
        separator@,
        at_least_one,
        stop_after_first,
    );
    let entries = vec![
        entry("type", text("tags_with_separator")),
        entry("tags", Json::Array(tags)),
        entry("separator", text(separator)),
        entry("at_least_one", Json::Bool(at_least_one)),
        entry("stop_after_first", Json::Bool(stop_after_first)),
    ];
    assert(entry_trees(entries@) =~= tree->Object_0);
    Json::Object(entries)
}

/// `[trigger, content]`
pub(crate) fn rule(trigger: &str, content: Json) -> (r: Json)
    ensures
        r@ == rule_tree(trigger@, content@),
{
    broadcast use lemma_array_tree;

    let ghost tree = rule_tree(trigger@, content@);
    let items = vec![text(trigger), content];
    assert(trees(items@) =~= tree->Array_0);
    Json::Array(items)
}

/// `{"type": "dispatch", "rules": rules, "loop": repeat, "excludes": []}`
pub(crate) fn dispatch(rules: Vec<Json>, repeat: bool) -> (r: Json)
    ensures
        r@ == dispatch_tree(trees(rules@), repeat),
{
    broadcast use {lemma_array_tree, lemma_object_tree};

    let ghost tree = dispatch_tree(trees(rules@), repeat);
    let entries = vec![
        entry("type", text("dispatch")),
        entry("rules", Json::Array(rules)),
        entry("loop", Json::Bool(repeat)),
        entry("excludes", empty_array()),
    ];
    assert(entry_trees(entries@) =~= tree->Object_0);
    Json::Object(entries)
}

/// `{"type": "structural_tag", "format": format}`
pub(crate) fn structural_tag(format: Json) -> (r: Json)
    ensures
        r@ == structural_tag_tree(format@),
{
    broadcast use lemma_object_tree;

    let ghost tree = structural_tag_tree(format@);
    let entries = vec![entry("type", text("structural_tag")), entry("format", format)];
    assert(entry_trees(entries@) =~= tree->Object_0);
    Json::Object(entries)
}

impl Format {
    /// Whether this format and all those in it satisfy `p`.
    pub open spec fn every(self, p: spec_fn(Format) -> bool) -> bool
        decreases self,
    {
        p(self) && match self {
            Format::Sequence(elements) => forall|i: int|
                0 <= i < elements.len() ==> (#[trigger] elements[i]).every(p),
            Format::Or(elements) => forall|i: int|
                0 <= i < elements.len() ==> (#[trigger] elements[i]).every(p),
            Format::Optional(content) => content.every(p),
            Format::Tag { begin, content, end } => content.every(p),
            Format::TagsWithSeparator { tags, separator, at_least_one, stop_after_first } => forall|
                i: int,
            |
                0 <= i < tags.len() ==> (#[trigger] tags[i]).every(p),
            Format::Dispatch { rules, repeat } => forall|i: int|
                0 <= i < rules.len() ==> (#[trigger] rules[i]).1.every(p),
            _ => true,
        }
    }

    /// Whether every schema in this format is well-formed.
    pub open spec fn schemas_wf(self) -> bool {
        self.every(schema_is_wf())
    }

    /// Whether no branch of this format lets a call be followed by another of the same choice.
    pub open spec fn no_repeatable_branch(self) -> bool {
        self.every(stops_after_first())
    }
}

/// If a format is a schema, it is well-formed.
pub open spec fn schema_is_wf() -> spec_fn(Format) -> bool {
    |format: Format| format matches Format::JsonSchema(schema) ==> schema.wf()
}

/// If a format is a choice of tags, it ends with the first.
pub open spec fn stops_after_first() -> spec_fn(Format) -> bool {
    |format: Format|
        format is TagsWithSeparator ==> format->TagsWithSeparator_stop_after_first
}

/// The keys of the objects that spell formats are different.
pub proof fn lemma_keys_differ()
    ensures
        "type"@ != "excludes"@,
        "type"@ != "value"@,
        "type"@ != "pattern"@,
        "type"@ != "json_schema"@,
        "type"@ != "style"@,
        "json_schema"@ != "style"@,
        "type"@ != "elements"@,
        "type"@ != "content"@,
        "type"@ != "begin"@,
        "type"@ != "end"@,
        "begin"@ != "content"@,
        "begin"@ != "end"@,
        "content"@ != "end"@,
        "type"@ != "tags"@,
        "type"@ != "separator"@,
        "type"@ != "at_least_one"@,
        "type"@ != "stop_after_first"@,
        "tags"@ != "separator"@,
        "tags"@ != "at_least_one"@,
        "tags"@ != "stop_after_first"@,
        "separator"@ != "at_least_one"@,
        "separator"@ != "stop_after_first"@,
        "at_least_one"@ != "stop_after_first"@,
        "type"@ != "rules"@,
        "type"@ != "loop"@,
        "rules"@ != "loop"@,
        "rules"@ != "excludes"@,
        "loop"@ != "excludes"@,
        "type"@ != "format"@,
{
    reveal_strlit("type");
    reveal_strlit("excludes");
    reveal_strlit("value");
    reveal_strlit("pattern");
    reveal_strlit("json_schema");
    reveal_strlit("style");
    reveal_strlit("elements");
    reveal_strlit("content");
    reveal_strlit("begin");
    reveal_strlit("end");
    reveal_strlit("tags");
    reveal_strlit("separator");
    reveal_strlit("at_least_one");
    reveal_strlit("stop_after_first");
    reveal_strlit("rules");
    reveal_strlit("loop");
    reveal_strlit("format");
    assert("type"@.len() == 4 && "type"@[1] == 'y');
    assert("tags"@.len() == 4 && "tags"@[1] == 'a');
    assert("loop"@.len() == 4 && "loop"@[1] == 'o');
    assert("begin"@.len() == 5 && "style"@.len() == 5 && "value"@.len() == 5);
    assert("rules"@.len() == 5 && "content"@.len() == 7 && "end"@.len() == 3);
    assert("separator"@.len() == 9 && "at_least_one"@.len() == 12);
    assert("stop_after_first"@.len() == 16);
}

/// The list that spells well-formed formats is well-formed.
proof fn lemma_render_each_wf(formats: Seq<Format>)
    requires
        forall|i: int| 0 <= i < formats.len() ==> (#[trigger] formats[i]).schemas_wf(),
    ensures
        JsonTree::Array(Format::render_each(formats)).wf(),
    decreases formats,
{
    lemma_render_each(formats);
    assert forall|i: int| 0 <= i < formats.len() implies (#[trigger] Format::render_each(
        formats,
    )[i]).wf() by {
        law_render_wf(formats[i]);
    }
}

/// The JSON of a format is well-formed where the schemas in it are: no object
/// has a key twice.
pub proof fn law_render_wf(format: Format)
    requires
        format.schemas_wf(),
    ensures
        format.render().wf(),
    decreases format,
{
    reveal_with_fuel(JsonTree::wf, 2);
    lemma_keys_differ();
    match format {
        Format::Sequence(elements) => lemma_render_each_wf(elements),
        Format::Or(elements) => lemma_render_each_wf(elements),
        Format::Optional(content) => law_render_wf(*content),
        Format::Tag { begin, content, end } => law_render_wf(*content),
        Format::TagsWithSeparator { tags, separator, at_least_one, stop_after_first } =>
            lemma_render_each_wf(tags),
        Format::Dispatch { rules, repeat } => {
            lemma_render_rules(rules);
            let spelt = Format::render_rules(rules);
            assert forall|i: int| 0 <= i < spelt.len() implies (#[trigger] spelt[i]).wf() by {
                law_render_wf(rules[i].1);
            }
            assert(JsonTree::Array(spelt).wf());
            assert(no_excludes().1.wf());
        },
        _ => {
            assert(no_excludes().1.wf());
        },
    }
}

/// The JSON of a structural tag is well-formed where that of its format is.
pub proof fn law_structural_tag_wf(format: JsonTree)
    requires
        format.wf(),
    ensures
        structural_tag_tree(format).wf(),
{
    reveal_with_fuel(JsonTree::wf, 2);
    lemma_keys_differ();
}

/// The name under `type` in the JSON of a format.
spec fn type_of(format: Format) -> Seq<char> {
    match format {
        Format::AnyText => "any_text"@,
        Format::ConstString(_) => "const_string"@,
        Format::Regex(_) => "regex"@,
        Format::JsonSchema(_) => "json_schema"@,
        Format::Sequence(_) => "sequence"@,
        Format::Or(_) => "or"@,
        Format::Optional(_) => "optional"@,
        Format::Tag { .. } => "tag"@,
        Format::TagsWithSeparator { .. } => "tags_with_separator"@,
        Format::Dispatch { .. } => "dispatch"@,
    }
}

/// The JSON of a format names its type first.
proof fn lemma_type_of(format: Format)
    ensures
        format.render() is Object,
        format.render()->Object_0.len() > 0,
        format.render()->Object_0[0] == type_entry(type_of(format)),
{
}

/// The types have different names.
proof fn lemma_type_names(a: Format, b: Format)
    requires
        type_of(a) == type_of(b),
    ensures
        a is AnyText <==> b is AnyText,
        a is ConstString <==> b is ConstString,
        a is Regex <==> b is Regex,
        a is JsonSchema <==> b is JsonSchema,
        a is Sequence <==> b is Sequence,
        a is Or <==> b is Or,
        a is Optional <==> b is Optional,
        a is Tag <==> b is Tag,
        a is TagsWithSeparator <==> b is TagsWithSeparator,
        a is Dispatch <==> b is Dispatch,
{
    reveal_strlit("any_text");
    reveal_strlit("const_string");
    reveal_strlit("regex");
    reveal_strlit("json_schema");
    reveal_strlit("sequence");
    reveal_strlit("or");
    reveal_strlit("optional");
    reveal_strlit("tag");
    reveal_strlit("tags_with_separator");
    reveal_strlit("dispatch");
    assert("any_text"@.len() == 8 && "any_text"@[0] == 'a');
    assert("const_string"@.len() == 12);
    assert("regex"@.len() == 5);
    assert("json_schema"@.len() == 11);
    assert("sequence"@.len() == 8 && "sequence"@[0] == 's');
    assert("or"@.len() == 2);
    assert("optional"@.len() == 8 && "optional"@[0] == 'o');
    assert("tag"@.len() == 3);
    assert("tags_with_separator"@.len() == 19);
    assert("dispatch"@.len() == 8 && "dispatch"@[0] == 'd');
}

proof fn lemma_pattern_texts(a: Pattern, b: Pattern)
    requires
        pattern_text(a) == pattern_text(b),
    ensures
        a == b,
{
    reveal_strlit("[\\s\\S]+");
    reveal_strlit("[\\s\\S]*");
    reveal_strlit("-?[0-9]+(\\.[0-9]+)?");
    assert("[\\s\\S]+"@[6] == '+');
    assert("[\\s\\S]*"@[6] == '*');
    assert("-?[0-9]+(\\.[0-9]+)?"@[6] == ']');
}

proof fn lemma_render_each_injective(a: Seq<Format>, b: Seq<Format>)
    requires
        Format::render_each(a) == Format::render_each(b),
    ensures
        a == b,
    decreases a,
{
    lemma_render_each(a);
    lemma_render_each(b);
    assert(Format::render_each(a).len() == a.len());
    assert(Format::render_each(b).len() == b.len());
    assert forall|i: int| 0 <= i < a.len() implies a[i] == b[i] by {
        assert(Format::render_each(a)[i] == a[i].render());
        assert(Format::render_each(b)[i] == b[i].render());
        law_render_injective(a[i], b[i]);
    }
    assert(a =~= b);
}

/// The JSON tells formats apart: it spells one format and no other.
pub proof fn law_render_injective(a: Format, b: Format)
    requires
        a.render() == b.render(),
    ensures
        a == b,
    decreases a,
{
    lemma_type_of(a);
    lemma_type_of(b);
    let left = a.render()->Object_0;
    let right = b.render()->Object_0;
    lemma_type_names(a, b);
    match (a, b) {
        (Format::ConstString(_), Format::ConstString(_)) => {
            assert(left[1].1 == right[1].1);
        },
        (Format::Regex(p), Format::Regex(q)) => {
            assert(left[1].1 == right[1].1);
            lemma_pattern_texts(p, q);
        },
        (Format::JsonSchema(_), Format::JsonSchema(_)) => {
            assert(left[1].1 == right[1].1);
        },
        (Format::Sequence(x), Format::Sequence(y)) => {
            assert(left[1].1 == right[1].1);
            lemma_render_each_injective(x, y);
        },
        (Format::Or(x), Format::Or(y)) => {
            assert(left[1].1 == right[1].1);
            lemma_render_each_injective(x, y);
        },
        (Format::Optional(x), Format::Optional(y)) => {
            assert(left[1].1 == right[1].1);
            law_render_injective(*x, *y);
        },
        (
            Format::Tag { begin: _, content: x, end: _ },
            Format::Tag { begin: _, content: y, end: _ },
        ) => {
            assert(left[1].1 == right[1].1);
            assert(left[2].1 == right[2].1);
            assert(left[3].1 == right[3].1);
            law_render_injective(*x, *y);
        },
        (
            Format::TagsWithSeparator { tags: x, .. },
            Format::TagsWithSeparator { tags: y, .. },
        ) => {
            assert(left[1].1 == right[1].1);
            assert(left[2].1 == right[2].1);
            assert(left[3].1 == right[3].1);
            assert(left[4].1 == right[4].1);
            lemma_render_each_injective(x, y);
        },
        (Format::Dispatch { rules: x, .. }, Format::Dispatch { rules: y, .. }) => {
            assert(left[1].1 == right[1].1);
            assert(left[2].1 == right[2].1);
            lemma_render_rules(x);
            lemma_render_rules(y);
            assert(Format::render_rules(x).len() == Format::render_rules(y).len());
            assert forall|i: int| 0 <= i < x.len() implies x[i] == y[i] by {
                assert(Format::render_rules(x)[i] == Format::render_rules(y)[i]);
                let one = Format::render_rules(x)[i]->Array_0;
                let other = Format::render_rules(y)[i]->Array_0;
                assert(one[0] == other[0] && one[1] == other[1]);
                law_render_injective(x[i].1, y[i].1);
            }
            assert(x =~= y);
        },
        _ => {},
    }
}

} // verus!
