//! What the JSON of a tag says, read off its entries.
//!
//! A reader takes the JSON as a backend does: the name under `type` decides what else there has
//! to be, each entry is taken by its key, and what has an entry more, an entry less or an entry
//! of another kind is not read at all.
use crate::format::{
    Format, Pattern, lemma_keys_differ, lemma_render_each, lemma_render_rules, structural_tag_tree,
};
use crate::json::{JsonTree, entry_is, law_field_is_the_first_entry};
use crate::language::SchemaTexts;
use vstd::prelude::*;

verus! {

/// The keys of the entries, in order.
pub open spec fn keys_of(entries: Seq<(Seq<char>, JsonTree)>) -> Seq<Seq<char>> {
    Seq::new(entries.len(), |i: int| entries[i].0)
}

/// Whether the object has these keys, in this order, and the first is a `type` that says `name`.
pub open spec fn is_typed_object(
    entries: Seq<(Seq<char>, JsonTree)>,
    name: Seq<char>,
    keys: Seq<Seq<char>>,
) -> bool {
    &&& entries.len() == 1 + keys.len()
    &&& keys_of(entries) == seq!["type"@] + keys
    &&& entries[0].1 == JsonTree::Text(name)
}

/// The expression that a pattern is.
pub open spec fn read_pattern(tree: JsonTree) -> Option<Pattern> {
    if tree == JsonTree::Text("[\\s\\S]+"@) {
        Some(Pattern::NonEmpty)
    } else if tree == JsonTree::Text("[\\s\\S]*"@) {
        Some(Pattern::Anything)
    } else if tree == JsonTree::Text("-?[0-9]+(\\.[0-9]+)?"@) {
        Some(Pattern::Decimal)
    } else {
        None
    }
}

/// The format that the JSON says, if it says one.
pub open spec fn read(tree: JsonTree) -> Option<Format>
    decreases tree,
{
    match tree {
        JsonTree::Object(entries) => read_entries(entries),
        _ => None,
    }
}

/// The format that an object with these entries says, if it says one.
pub open spec fn read_entries(entries: Seq<(Seq<char>, JsonTree)>) -> Option<Format>
    decreases entries,
{
    proof {
        assert(entries.len() > 1 ==> decreases_to!(entries => entries[1]));
        assert(entries.len() > 2 ==> decreases_to!(entries => entries[2]));
    }
    if is_typed_object(entries, "any_text"@, seq!["excludes"@]) {
        if entries[1].1 == JsonTree::Array(Seq::empty()) {
            Some(Format::AnyText)
        } else {
            None
        }
    } else if is_typed_object(entries, "const_string"@, seq!["value"@]) {
        match entries[1].1 {
            JsonTree::Text(value) => Some(Format::ConstString(value)),
            _ => None,
        }
    } else if is_typed_object(entries, "regex"@, seq!["pattern"@]) {
        match read_pattern(entries[1].1) {
            Some(pattern) => Some(Format::Regex(pattern)),
            None => None,
        }
    } else if is_typed_object(entries, "json_schema"@, seq!["json_schema"@, "style"@]) {
        if entries[2].1 == JsonTree::Text("json"@) {
            Some(Format::JsonSchema(entries[1].1))
        } else {
            None
        }
    } else if is_typed_object(entries, "sequence"@, seq!["elements"@]) {
        match entries[1].1 {
            JsonTree::Array(items) => match read_each(items) {
                Some(elements) => Some(Format::Sequence(elements)),
                None => None,
            },
            _ => None,
        }
    } else if is_typed_object(entries, "or"@, seq!["elements"@]) {
        match entries[1].1 {
            JsonTree::Array(items) => match read_each(items) {
                Some(elements) => Some(Format::Or(elements)),
                None => None,
            },
            _ => None,
        }
    } else if is_typed_object(entries, "optional"@, seq!["content"@]) {
        match read(entries[1].1) {
            Some(content) => Some(Format::Optional(Box::new(content))),
            None => None,
        }
    } else if is_typed_object(entries, "tag"@, seq!["begin"@, "content"@, "end"@]) {
        match (entries[1].1, read(entries[2].1), entries[3].1) {
            (JsonTree::Text(begin), Some(content), JsonTree::Text(end)) => Some(
                Format::Tag { begin, content: Box::new(content), end },
            ),
            _ => None,
        }
    } else if is_typed_object(
        entries,
        "tags_with_separator"@,
        seq!["tags"@, "separator"@, "at_least_one"@, "stop_after_first"@],
    ) {
        match (entries[1].1, entries[2].1, entries[3].1, entries[4].1) {
            (
                JsonTree::Array(items),
                JsonTree::Text(separator),
                JsonTree::Bool(at_least_one),
                JsonTree::Bool(stop_after_first),
            ) => match read_each(items) {
                Some(tags) => Some(
                    Format::TagsWithSeparator { tags, separator, at_least_one, stop_after_first },
                ),
                None => None,
            },
            _ => None,
        }
    } else if is_typed_object(entries, "dispatch"@, seq!["rules"@, "loop"@, "excludes"@]) {
        match (entries[1].1, entries[2].1) {
            (JsonTree::Array(items), JsonTree::Bool(repeat)) => match read_rules(items) {
                Some(rules) => if entries[3].1 == JsonTree::Array(Seq::empty()) {
                    Some(Format::Dispatch { rules, repeat })
                } else {
                    None
                },
                None => None,
            },
            _ => None,
        }
    } else {
        None
    }
}

/// The formats that the items of a list say, if all say one.
pub open spec fn read_each(items: Seq<JsonTree>) -> Option<Seq<Format>>
    decreases items,
{
    if items.len() == 0 {
        Some(Seq::empty())
    } else {
        match (read_each(items.drop_last()), read(items.last())) {
            (Some(before), Some(last)) => Some(before.push(last)),
            _ => None,
        }
    }
}

/// The triggers and formats that the items of a list say, if all say one of each.
pub open spec fn read_rules(items: Seq<JsonTree>) -> Option<Seq<(Seq<char>, Format)>>
    decreases items,
{
    if items.len() == 0 {
        Some(Seq::empty())
    } else {
        match (read_rules(items.drop_last()), read_rule(items.last())) {
            (Some(before), Some(last)) => Some(before.push(last)),
            _ => None,
        }
    }
}

/// The trigger and the format that a pair says.
pub open spec fn read_rule(tree: JsonTree) -> Option<(Seq<char>, Format)>
    decreases tree,
{
    match tree {
        JsonTree::Array(pair) => if pair.len() == 2 {
            match (pair[0], read(pair[1])) {
                (JsonTree::Text(trigger), Some(content)) => Some((trigger, content)),
                _ => None,
            }
        } else {
            None
        },
        _ => None,
    }
}

/// The format of the turn that the JSON of a whole tag says, if it says one.
pub open spec fn read_tag(tree: JsonTree) -> Option<Format> {
    match tree {
        JsonTree::Object(entries) => if is_typed_object(
            entries,
            "structural_tag"@,
            seq!["format"@],
        ) {
            read(entries[1].1)
        } else {
            None
        },
        _ => None,
    }
}

/// Whether a text is admitted by what the JSON of a format says.
pub open spec fn admits(tree: JsonTree, fits: SchemaTexts, s: Seq<char>) -> bool {
    read(tree) is Some && read(tree)->0.accepts(fits, s)
}

/// Whether a text is admitted by what the JSON of a whole tag says.
pub open spec fn tag_admits(tree: JsonTree, fits: SchemaTexts, s: Seq<char>) -> bool {
    read_tag(tree) is Some && read_tag(tree)->0.accepts(fits, s)
}

proof fn lemma_names_differ()
    ensures
        ({
            let names = seq![
                "any_text"@,
                "const_string"@,
                "regex"@,
                "json_schema"@,
                "sequence"@,
                "or"@,
                "optional"@,
                "tag"@,
                "tags_with_separator"@,
                "dispatch"@,
            ];
            forall|i: int, j: int| 0 <= i < j < 10 ==> #[trigger] names[i] != #[trigger] names[j]
        }),
        "[\\s\\S]+"@ != "[\\s\\S]*"@,
        "[\\s\\S]+"@ != "-?[0-9]+(\\.[0-9]+)?"@,
        "[\\s\\S]*"@ != "-?[0-9]+(\\.[0-9]+)?"@,
{
    reveal_strlit("any_text");
    reveal_strlit("const_string");
    reveal_strlit("regex");
    reveal_strlit("json_schema");
    reveal_strlit("sequence");
    reveal_strlit("or");
    reveal_strlit("optional");
    reveal_strlit("tag");
    reveal_strlit("tags_with_separator");
    reveal_strlit("dispatch");
    reveal_strlit("[\\s\\S]+");
    reveal_strlit("[\\s\\S]*");
    reveal_strlit("-?[0-9]+(\\.[0-9]+)?");
    assert("any_text"@.len() == 8 && "any_text"@[0] == 'a');
    assert("const_string"@.len() == 12 && "regex"@.len() == 5 && "json_schema"@.len() == 11);
    assert("sequence"@.len() == 8 && "sequence"@[0] == 's');
    assert("or"@.len() == 2 && "tag"@.len() == 3 && "tags_with_separator"@.len() == 19);
    assert("optional"@.len() == 8 && "optional"@[0] == 'o');
    assert("dispatch"@.len() == 8 && "dispatch"@[0] == 'd');
    assert("[\\s\\S]+"@[6] == '+');
    assert("[\\s\\S]*"@[6] == '*');
    assert("-?[0-9]+(\\.[0-9]+)?"@[6] == ']');
}

proof fn lemma_read_each(formats: Seq<Format>)
    ensures
        read_each(Format::render_each(formats)) == Some(formats),
    decreases formats, 0nat,
{
    if formats.len() > 0 {
        let items = Format::render_each(formats);
        let before = formats.drop_last();
        assert(items.drop_last() =~= Format::render_each(before));
        lemma_read_each(before);
        law_reader_gives_back_the_format(formats.last());
        assert(before.push(formats.last()) =~= formats);
    }
}

proof fn lemma_read_rules(rules: Seq<(Seq<char>, Format)>)
    ensures
        read_rules(Format::render_rules(rules)) == Some(rules),
    decreases rules, 0nat,
{
    if rules.len() > 0 {
        let items = Format::render_rules(rules);
        let before = rules.drop_last();
        assert(items.drop_last() =~= Format::render_rules(before));
        lemma_read_rules(before);
        assert(decreases_to!(rules => rules[rules.len() - 1]));
        law_reader_gives_back_the_format(rules.last().1);
        let pair = items.last()->Array_0;
        assert(items.last() == JsonTree::Array(pair));
        assert(pair.len() == 2 && pair[0] == JsonTree::Text(rules.last().0));
        assert(pair[1] == rules.last().1.render());
        assert(read_rule(items.last()) == Some(rules.last()));
        assert(before.push(rules.last()) =~= rules);
    }
}

/// The JSON of a format says that format: read off by its type and its keys, it gives back the
/// format with every text, list, flag and schema in it as they were.
pub proof fn law_reader_gives_back_the_format(format: Format)
    ensures
        read(format.render()) == Some(format),
    decreases format, 1nat,
{
    let entries = format.render()->Object_0;
    let names = seq![
        "any_text"@,
        "const_string"@,
        "regex"@,
        "json_schema"@,
        "sequence"@,
        "or"@,
        "optional"@,
        "tag"@,
        "tags_with_separator"@,
        "dispatch"@,
    ];
    lemma_names_differ();
    assert(read(format.render()) == read_entries(entries));
    match format {
        Format::AnyText => {
            assert(names[0] == "any_text"@);
            assert(keys_of(entries) =~= seq!["type"@] + seq!["excludes"@]);
        },
        Format::ConstString(_) => {
            assert(names[1] == "const_string"@);
            assert(keys_of(entries) =~= seq!["type"@] + seq!["value"@]);
        },
        Format::Regex(_) => {
            assert(names[2] == "regex"@);
            assert(keys_of(entries) =~= seq!["type"@] + seq!["pattern"@]);
        },
        Format::JsonSchema(_) => {
            assert(names[3] == "json_schema"@);
            assert(keys_of(entries) =~= seq!["type"@] + seq!["json_schema"@, "style"@]);
        },
        Format::Sequence(elements) => {
            assert(names[4] == "sequence"@);
            assert(keys_of(entries) =~= seq!["type"@] + seq!["elements"@]);
            lemma_read_each(elements);
        },
        Format::Or(elements) => {
            assert(names[5] == "or"@);
            assert(keys_of(entries) =~= seq!["type"@] + seq!["elements"@]);
            lemma_read_each(elements);
        },
        Format::Optional(content) => {
            assert(names[6] == "optional"@);
            assert(keys_of(entries) =~= seq!["type"@] + seq!["content"@]);
            law_reader_gives_back_the_format(*content);
        },
        Format::Tag { begin, content, end } => {
            assert(names[7] == "tag"@);
            assert(keys_of(entries) =~= seq!["type"@] + seq!["begin"@, "content"@, "end"@]);
            law_reader_gives_back_the_format(*content);
        },
        Format::TagsWithSeparator { tags, separator, at_least_one, stop_after_first } => {
            assert(names[8] == "tags_with_separator"@);
            assert(keys_of(entries) =~= seq!["type"@] + seq![
                "tags"@,
                "separator"@,
                "at_least_one"@,
                "stop_after_first"@,
            ]);
            lemma_read_each(tags);
        },
        Format::Dispatch { rules, repeat } => {
            assert(names[9] == "dispatch"@);
            assert(keys_of(entries) =~= seq!["type"@] + seq!["rules"@, "loop"@, "excludes"@]);
            lemma_read_rules(rules);
        },
    }
}

/// The JSON of a tag says the format of the turn.
pub proof fn law_reader_gives_back_the_turn(format: Format)
    ensures
        read_tag(structural_tag_tree(format.render())) == Some(format),
{
    law_reader_gives_back_the_format(format);
    let entries = structural_tag_tree(format.render())->Object_0;
    assert(keys_of(entries) =~= seq!["type"@] + seq!["format"@]);
}

/// The JSON of a format admits what the format admits.
pub proof fn law_json_admits_what_the_format_admits(
    format: Format,
    fits: SchemaTexts,
    s: Seq<char>,
)
    ensures
        admits(format.render(), fits, s) <==> format.accepts(fits, s),
        tag_admits(structural_tag_tree(format.render()), fits, s) <==> format.accepts(fits, s),
{
    law_reader_gives_back_the_format(format);
    law_reader_gives_back_the_turn(format);
}

/// A caller's schema is handed on as it is, to be answered in JSON, whatever it holds.
pub proof fn law_schema_is_handed_on(schema: JsonTree)
    ensures
        entry_is(Format::JsonSchema(schema).render(), "json_schema"@, schema),
        entry_is(Format::JsonSchema(schema).render(), "style"@, JsonTree::Text("json"@)),
        entry_is(Format::JsonSchema(schema).render(), "type"@, JsonTree::Text("json_schema"@)),
{
    lemma_keys_differ();
    let tree = Format::JsonSchema(schema).render();
    assert(tree->Object_0[0] == ("type"@, JsonTree::Text("json_schema"@)));
    assert(tree->Object_0[1] == ("json_schema"@, schema));
    assert(tree->Object_0[2] == ("style"@, JsonTree::Text("json"@)));
}

/// The flags of a format stand under their keys as they are, however many rules or tags it has.
pub proof fn law_flags_are_handed_on(
    rules: Seq<(Seq<char>, Format)>,
    repeat: bool,
    tags: Seq<Format>,
    separator: Seq<char>,
    at_least_one: bool,
    stop_after_first: bool,
)
    ensures
        ({
            let tree = (Format::Dispatch { rules, repeat }).render();
            entry_is(tree, "loop"@, JsonTree::Bool(repeat))
        }),
        ({
            let tree = (Format::TagsWithSeparator {
                tags,
                separator,
                at_least_one,
                stop_after_first,
            }).render();
            &&& entry_is(tree, "separator"@, JsonTree::Text(separator))
            &&& entry_is(tree, "at_least_one"@, JsonTree::Bool(at_least_one))
            &&& entry_is(tree, "stop_after_first"@, JsonTree::Bool(stop_after_first))
        }),
{
    lemma_keys_differ();
    let guard = (Format::Dispatch { rules, repeat }).render();
    assert(guard->Object_0[2] == ("loop"@, JsonTree::Bool(repeat)));
    let choice = (Format::TagsWithSeparator {
        tags,
        separator,
        at_least_one,
        stop_after_first,
    }).render();
    assert(choice->Object_0[2] == ("separator"@, JsonTree::Text(separator)));
    assert(choice->Object_0[3] == ("at_least_one"@, JsonTree::Bool(at_least_one)));
    assert(choice->Object_0[4] == ("stop_after_first"@, JsonTree::Bool(stop_after_first)));
}

/// Each part of a format stands under its key, as it is.
pub proof fn law_each_part_stands_under_its_key(format: Format)
    ensures
        match format {
            Format::AnyText => entry_is(
                format.render(),
                "excludes"@,
                JsonTree::Array(Seq::empty()),
            ),
            Format::ConstString(value) => entry_is(
                format.render(),
                "value"@,
                JsonTree::Text(value),
            ),
            Format::Regex(_) => format.render().field("pattern"@) is Some,
            Format::JsonSchema(schema) => entry_is(format.render(), "json_schema"@, schema),
            Format::Sequence(elements) => {
                &&& entry_is(format.render(), "type"@, JsonTree::Text("sequence"@))
                &&& entry_is(
                    format.render(),
                    "elements"@,
                    JsonTree::Array(Seq::new(elements.len(), |i: int| elements[i].render())),
                )
            },
            Format::Or(elements) => {
                &&& entry_is(format.render(), "type"@, JsonTree::Text("or"@))
                &&& entry_is(
                    format.render(),
                    "elements"@,
                    JsonTree::Array(Seq::new(elements.len(), |i: int| elements[i].render())),
                )
            },
            Format::Optional(content) => {
                &&& entry_is(format.render(), "type"@, JsonTree::Text("optional"@))
                &&& entry_is(format.render(), "content"@, content.render())
            },
            Format::Tag { begin, content, end } => {
                &&& entry_is(format.render(), "type"@, JsonTree::Text("tag"@))
                &&& entry_is(format.render(), "begin"@, JsonTree::Text(begin))
                &&& entry_is(format.render(), "content"@, content.render())
                &&& entry_is(format.render(), "end"@, JsonTree::Text(end))
            },
            Format::TagsWithSeparator { tags, separator, at_least_one, stop_after_first } => {
                &&& entry_is(format.render(), "type"@, JsonTree::Text("tags_with_separator"@))
                &&& entry_is(
                    format.render(),
                    "tags"@,
                    JsonTree::Array(Seq::new(tags.len(), |i: int| tags[i].render())),
                )
            },
            Format::Dispatch { rules, repeat } => {
                &&& entry_is(format.render(), "type"@, JsonTree::Text("dispatch"@))
                &&& entry_is(
                    format.render(),
                    "rules"@,
                    JsonTree::Array(
                        Seq::new(
                            rules.len(),
                            |i: int|
                                JsonTree::Array(
                                    seq![JsonTree::Text(rules[i].0), rules[i].1.render()],
                                ),
                        ),
                    ),
                )
                &&& entry_is(format.render(), "excludes"@, JsonTree::Array(Seq::empty()))
            },
        },
{
    lemma_keys_differ();
    let entries = format.render()->Object_0;
    assert(entries.len() > 1);
    assert(entries[0].0 == "type"@);
    assert(entries[1].0 != "type"@);
    match format {
        Format::Regex(pattern) => {
            law_field_is_the_first_entry(format.render(), "pattern"@, entries[1].1);
        },
        Format::Sequence(elements) => {
            lemma_render_each(elements);
        },
        Format::Or(elements) => {
            lemma_render_each(elements);
        },
        Format::Tag { begin, content, end } => {
            assert(entries[2].0 == "content"@ && entries[3].0 == "end"@);
        },
        Format::TagsWithSeparator { tags, separator, at_least_one, stop_after_first } => {
            lemma_render_each(tags);
        },
        Format::Dispatch { rules, repeat } => {
            lemma_render_rules(rules);
            assert(entries[2].0 == "loop"@ && entries[3].0 == "excludes"@);
            assert(entries[1].1->Array_0 =~= Seq::new(
                rules.len(),
                |i: int| JsonTree::Array(seq![JsonTree::Text(rules[i].0), rules[i].1.render()]),
            ));
        },
        _ => {},
    }
}

} // verus!
