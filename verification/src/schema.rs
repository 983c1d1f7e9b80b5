//! What the schema of a tool's parameters says, read off its entries, and which texts are
//! arguments for it.
use crate::args::{
    ascii_lower, boolean_format, declared_type, eq_ignore_case, is_string_key, required_names,
    required_string_keys, string_items, value_format,
};
use crate::args_language::law_string_value;
use crate::format::{Format, Pattern};
use crate::json::{JsonTree, entry_is, law_field_is_the_first_entry};
use crate::language::{SchemaTexts, is_digits, is_unsigned, pattern_matches};
use crate::markers::GEMMA4_STRING_DELIM;
use vstd::prelude::*;

verus! {

/// Whether one of two letters is the capital of the other.
pub open spec fn is_capital_of(capital: char, small: char) -> bool {
    'A' as int <= capital as int <= 'Z' as int && small as int - 'a' as int == capital as int
        - 'A' as int
}

/// Whether two texts differ in nothing but the case of ASCII letters.
pub open spec fn same_but_for_case(a: Seq<char>, b: Seq<char>) -> bool {
    &&& a.len() == b.len()
    &&& forall|i: int|
        0 <= i < a.len() ==> (#[trigger] a[i]) == b[i] || is_capital_of(a[i], b[i])
            || is_capital_of(b[i], a[i])
}

/// Texts that are compared without regard to case differ in nothing but the case of ASCII
/// letters.
pub proof fn law_case_is_all_that_is_ignored(a: Seq<char>, b: Seq<char>)
    ensures
        eq_ignore_case(a, b) <==> same_but_for_case(a, b),
{
    if eq_ignore_case(a, b) {
        assert forall|i: int| 0 <= i < a.len() implies (#[trigger] a[i]) == b[i] || is_capital_of(
            a[i],
            b[i],
        ) || is_capital_of(b[i], a[i]) by {
            assert(ascii_lower(a[i]) == ascii_lower(b[i]));
        }
    }
    if same_but_for_case(a, b) {
        assert forall|i: int| 0 <= i < a.len() implies ascii_lower(#[trigger] a[i]) == ascii_lower(
            b[i],
        ) by {
            assert(a[i] == b[i] || is_capital_of(a[i], b[i]) || is_capital_of(b[i], a[i]));
        }
    }
}

/// Whether the schema has this type, whatever the case of the letters and whatever else the
/// schema says.
pub open spec fn is_typed(schema: JsonTree, name: Seq<char>) -> bool {
    exists|t: Seq<char>| #[trigger]
        entry_is(schema, "type"@, JsonTree::Text(t)) && same_but_for_case(t, name)
}

/// Whether the schema is that of a string, an integer, a number or a boolean.
pub open spec fn is_simple(schema: JsonTree) -> bool {
    is_typed(schema, "string"@) || is_typed(schema, "integer"@) || is_typed(schema, "number"@)
        || is_typed(schema, "boolean"@)
}

/// A minus or none, digits, and behind a dot further digits or no dot.
pub open spec fn is_decimal(s: Seq<char>) -> bool {
    exists|sign: Seq<char>, whole: Seq<char>, fraction: Seq<char>|
        {
            &&& s == #[trigger] (sign + whole + fraction)
            &&& sign.len() == 0 || sign == seq!['-']
            &&& is_digits(whole)
            &&& fraction.len() == 0 || fraction[0] == '.' && is_digits(fraction.skip(1))
        }
}

/// A text between the delimiters of strings, and if it has to be `filled` then one that is not
/// empty.
pub open spec fn is_delimited(filled: bool, s: Seq<char>) -> bool {
    exists|text: Seq<char>|
        (filled ==> text.len() > 0) && s == #[trigger] (GEMMA4_STRING_DELIM@ + text
            + GEMMA4_STRING_DELIM@)
}

/// Whether the text is a value for a property with this schema.
pub open spec fn is_value(schema: JsonTree, required: bool, s: Seq<char>) -> bool {
    ||| is_typed(schema, "string"@) && is_delimited(required, s)
    ||| (is_typed(schema, "integer"@) || is_typed(schema, "number"@)) && is_decimal(s)
    ||| is_typed(schema, "boolean"@) && (s == seq!['t', 'r', 'u', 'e'] || s == seq![
        'f',
        'a',
        'l',
        's',
        'e',
    ])
}

proof fn lemma_declared_type(schema: JsonTree, t: Seq<char>)
    ensures
        declared_type(schema) == Some(t) <==> entry_is(schema, "type"@, JsonTree::Text(t)),
{
    law_field_is_the_first_entry(schema, "type"@, JsonTree::Text(t));
}

proof fn lemma_is_typed(schema: JsonTree, name: Seq<char>)
    ensures
        is_typed(schema, name) <==> declared_type(schema) is Some && eq_ignore_case(
            declared_type(schema)->0,
            name,
        ),
{
    if declared_type(schema) is Some {
        let t = declared_type(schema)->0;
        lemma_declared_type(schema, t);
        law_case_is_all_that_is_ignored(t, name);
    }
    if is_typed(schema, name) {
        let t = choose|t: Seq<char>| #[trigger]
            entry_is(schema, "type"@, JsonTree::Text(t)) && same_but_for_case(t, name);
        lemma_declared_type(schema, t);
        law_case_is_all_that_is_ignored(t, name);
    }
}

/// No text is two of the names.
proof fn lemma_names_apart(t: Seq<char>)
    ensures
        eq_ignore_case(t, "string"@) ==> !eq_ignore_case(t, "integer"@) && !eq_ignore_case(
            t,
            "number"@,
        ) && !eq_ignore_case(t, "boolean"@),
        eq_ignore_case(t, "integer"@) || eq_ignore_case(t, "number"@) ==> !eq_ignore_case(
            t,
            "boolean"@,
        ),
{
    reveal_strlit("string");
    reveal_strlit("integer");
    reveal_strlit("number");
    reveal_strlit("boolean");
    assert("string"@.len() == 6 && "string"@[0] == 's');
    assert("number"@.len() == 6 && "number"@[0] == 'n');
    assert("integer"@.len() == 7 && "integer"@[0] == 'i');
    assert("boolean"@.len() == 7 && "boolean"@[0] == 'b');
    if t.len() > 0 {
        assert(eq_ignore_case(t, "string"@) ==> ascii_lower(t[0]) == ascii_lower('s'));
        assert(eq_ignore_case(t, "number"@) ==> ascii_lower(t[0]) == ascii_lower('n'));
        assert(eq_ignore_case(t, "integer"@) ==> ascii_lower(t[0]) == ascii_lower('i'));
        assert(eq_ignore_case(t, "boolean"@) ==> ascii_lower(t[0]) == ascii_lower('b'));
    }
}

proof fn lemma_unsigned(s: Seq<char>)
    ensures
        is_unsigned(s) <==> exists|whole: Seq<char>, fraction: Seq<char>|
            {
                &&& s == #[trigger] (whole + fraction)
                &&& is_digits(whole)
                &&& fraction.len() == 0 || fraction[0] == '.' && is_digits(fraction.skip(1))
            },
{
    if is_unsigned(s) {
        if is_digits(s) {
            let none = Seq::<char>::empty();
            assert(s =~= s + none);
        } else {
            let n = choose|n: int|
                0 <= n < s.len() && #[trigger] s[n] == '.' && is_digits(s.take(n)) && is_digits(
                    s.skip(n + 1),
                );
            let fraction = s.skip(n);
            assert(fraction.skip(1) =~= s.skip(n + 1));
            assert(fraction[0] == '.');
            assert(s =~= s.take(n) + fraction);
        }
    }
    if exists|whole: Seq<char>, fraction: Seq<char>|
        {
            &&& s == #[trigger] (whole + fraction)
            &&& is_digits(whole)
            &&& fraction.len() == 0 || fraction[0] == '.' && is_digits(fraction.skip(1))
        } {
        let (whole, fraction) = choose|whole: Seq<char>, fraction: Seq<char>|
            {
                &&& s == #[trigger] (whole + fraction)
                &&& is_digits(whole)
                &&& fraction.len() == 0 || fraction[0] == '.' && is_digits(fraction.skip(1))
            };
        if fraction.len() == 0 {
            assert(s =~= whole);
        } else {
            let n = whole.len() as int;
            assert(s.take(n) =~= whole);
            assert(s.skip(n + 1) =~= fraction.skip(1));
            assert(s[n] == '.');
        }
    }
}

proof fn lemma_decimal(s: Seq<char>)
    ensures
        pattern_matches(Pattern::Decimal, s) <==> is_decimal(s),
{
    if pattern_matches(Pattern::Decimal, s) {
        let (sign, rest) = if is_unsigned(s) {
            (Seq::<char>::empty(), s)
        } else {
            (seq!['-'], s.skip(1))
        };
        lemma_unsigned(rest);
        let (whole, fraction) = choose|whole: Seq<char>, fraction: Seq<char>|
            {
                &&& rest == #[trigger] (whole + fraction)
                &&& is_digits(whole)
                &&& fraction.len() == 0 || fraction[0] == '.' && is_digits(fraction.skip(1))
            };
        assert(s =~= sign + rest);
        assert(sign + rest =~= sign + whole + fraction);
    }
    if is_decimal(s) {
        let (sign, whole, fraction) = choose|
            sign: Seq<char>,
            whole: Seq<char>,
            fraction: Seq<char>,
        |
            {
                &&& s == #[trigger] (sign + whole + fraction)
                &&& sign.len() == 0 || sign == seq!['-']
                &&& is_digits(whole)
                &&& fraction.len() == 0 || fraction[0] == '.' && is_digits(fraction.skip(1))
            };
        let rest = whole + fraction;
        lemma_unsigned(rest);
        if sign.len() == 0 {
            assert(s =~= rest);
        } else {
            assert(s.skip(1) =~= rest);
            assert(s[0] == '-');
        }
    }
}

/// Which texts a value may be follows from the type of the property alone, whatever else its
/// schema holds: for a string a text in delimiters, not empty if it is required; for an integer
/// or a number a decimal; for a boolean `true` or `false`. Of any other type no value is known.
pub proof fn law_values_follow_the_type(
    schema: JsonTree,
    required: bool,
    fits: SchemaTexts,
    s: Seq<char>,
)
    ensures
        value_format(schema, required) is Some <==> is_simple(schema),
        value_format(schema, required) is Some ==> (value_format(schema, required)->0.accepts(
            fits,
            s,
        ) <==> is_value(schema, required, s)),
{
    lemma_is_typed(schema, "string"@);
    lemma_is_typed(schema, "integer"@);
    lemma_is_typed(schema, "number"@);
    lemma_is_typed(schema, "boolean"@);
    if declared_type(schema) is Some {
        lemma_names_apart(declared_type(schema)->0);
    }
    if is_typed(schema, "string"@) {
        law_string_value(required, fits, s);
    } else if is_typed(schema, "integer"@) || is_typed(schema, "number"@) {
        lemma_decimal(s);
    } else if is_typed(schema, "boolean"@) {
        let words = boolean_format()->Or_0;
        reveal_strlit("true");
        reveal_strlit("false");
        assert("true"@ =~= seq!['t', 'r', 'u', 'e']);
        assert("false"@ =~= seq!['f', 'a', 'l', 's', 'e']);
        assert(boolean_format().accepts(fits, s) <==> Format::accepts_any(words, fits, s));
        assert(words[0].accepts(fits, s) <==> s == "true"@);
        assert(words[1].accepts(fits, s) <==> s == "false"@);
        if Format::accepts_any(words, fits, s) {
            let i = choose|i: int| 0 <= i < words.len() && (#[trigger] words[i]).accepts(fits, s);
            assert(i == 0 || i == 1);
        }
    }
}

/// Schemas of the same type have the same format of values, whatever else they hold.
pub proof fn law_only_the_type_matters(
    a: JsonTree,
    b: JsonTree,
    t: Seq<char>,
    u: Seq<char>,
    required: bool,
)
    requires
        entry_is(a, "type"@, JsonTree::Text(t)),
        entry_is(b, "type"@, JsonTree::Text(u)),
        same_but_for_case(t, u),
    ensures
        value_format(a, required) == value_format(b, required),
        !is_typed(a, "string"@) ==> value_format(a, true) == value_format(a, false),
{
    lemma_declared_type(a, t);
    lemma_declared_type(b, u);
    law_case_is_all_that_is_ignored(t, u);
    lemma_is_typed(a, "string"@);
    assert forall|name: Seq<char>| #[trigger] eq_ignore_case(t, name) == eq_ignore_case(u, name) by {
        if t.len() == name.len() {
            assert forall|i: int| 0 <= i < t.len() implies ascii_lower(#[trigger] t[i])
                == ascii_lower(u[i]) by {}
            if eq_ignore_case(t, name) {
                assert forall|i: int| 0 <= i < u.len() implies ascii_lower(#[trigger] u[i])
                    == ascii_lower(name[i]) by {
                    assert(ascii_lower(t[i]) == ascii_lower(name[i]));
                }
            }
            if eq_ignore_case(u, name) {
                assert forall|i: int| 0 <= i < t.len() implies ascii_lower(#[trigger] t[i])
                    == ascii_lower(name[i]) by {
                    assert(ascii_lower(u[i]) == ascii_lower(name[i]));
                }
            }
        }
    }
}

/// Whether the schema requires an argument of this name: it is one of the items of the list
/// under `required`.
pub open spec fn is_required(parameters: JsonTree, name: Seq<char>) -> bool {
    exists|items: Seq<JsonTree>| #[trigger]
        entry_is(parameters, "required"@, JsonTree::Array(items)) && items.contains(
            JsonTree::Text(name),
        )
}

/// Whether the schema declares an argument of this name with this schema of its own.
pub open spec fn declares(parameters: JsonTree, name: Seq<char>, schema: JsonTree) -> bool {
    exists|properties: Seq<(Seq<char>, JsonTree)>| #[trigger]
        entry_is(parameters, "properties"@, JsonTree::Object(properties)) && entry_is(
            JsonTree::Object(properties),
            name,
            schema,
        )
}

/// Whether the schema requires an argument of this name and declares it a string.
pub open spec fn is_required_string(parameters: JsonTree, name: Seq<char>) -> bool {
    is_required(parameters, name) && exists|schema: JsonTree| #[trigger]
        declares(parameters, name, schema) && is_typed(schema, "string"@)
}

proof fn lemma_string_items(items: Seq<JsonTree>, name: Seq<char>)
    ensures
        string_items(items).contains(name) <==> items.contains(JsonTree::Text(name)),
    decreases items.len(),
{
    reveal(Seq::filter_map);
    if items.len() > 0 {
        let before = items.drop_last();
        let kept = string_items(before);
        lemma_string_items(before, name);
        if items.contains(JsonTree::Text(name)) {
            let k = items.index_of(JsonTree::Text(name));
            if k < before.len() {
                assert(before[k] == JsonTree::Text(name));
                let j = kept.index_of(name);
                assert(string_items(items)[j] == name);
            } else {
                assert(string_items(items)[kept.len() as int] == name);
            }
        }
        if string_items(items).contains(name) {
            let j = string_items(items).index_of(name);
            if j < kept.len() {
                assert(kept[j] == name);
                let k = before.index_of(JsonTree::Text(name));
                assert(items[k] == JsonTree::Text(name));
            } else {
                assert(items[items.len() - 1] == JsonTree::Text(name));
            }
        }
    }
}

/// A name is required if and only if it is an item of the list under `required`, whatever other
/// entries the parameters have.
pub proof fn law_required_names_are_the_items(parameters: JsonTree, name: Seq<char>)
    ensures
        required_names(parameters).contains(name) <==> is_required(parameters, name),
{
    match parameters.field("required"@) {
        Some(JsonTree::Array(items)) => {
            law_field_is_the_first_entry(parameters, "required"@, JsonTree::Array(items));
            lemma_string_items(items, name);
        },
        _ => {},
    }
    if is_required(parameters, name) {
        let items = choose|items: Seq<JsonTree>| #[trigger]
            entry_is(parameters, "required"@, JsonTree::Array(items)) && items.contains(
                JsonTree::Text(name),
            );
        law_field_is_the_first_entry(parameters, "required"@, JsonTree::Array(items));
        lemma_string_items(items, name);
    }
}

proof fn lemma_is_string_key(properties: Seq<(Seq<char>, JsonTree)>, key: Seq<char>)
    ensures
        is_string_key(properties)(key) <==> exists|schema: JsonTree| #[trigger]
            entry_is(JsonTree::Object(properties), key, schema) && is_typed(schema, "string"@),
{
    let object = JsonTree::Object(properties);
    if object.field(key) is Some {
        let schema = object.field(key)->0;
        law_field_is_the_first_entry(object, key, schema);
        lemma_is_typed(schema, "string"@);
    }
    if exists|schema: JsonTree| #[trigger]
        entry_is(object, key, schema) && is_typed(schema, "string"@) {
        let schema = choose|schema: JsonTree| #[trigger]
            entry_is(object, key, schema) && is_typed(schema, "string"@);
        law_field_is_the_first_entry(object, key, schema);
        lemma_is_typed(schema, "string"@);
    }
}

proof fn lemma_filter_contains(
    names: Seq<Seq<char>>,
    wanted: spec_fn(Seq<char>) -> bool,
    key: Seq<char>,
)
    ensures
        names.filter(wanted).contains(key) <==> names.contains(key) && wanted(key),
{
    if names.filter(wanted).contains(key) {
        names.lemma_filter_contains_rev(wanted, key);
        let k = names.filter(wanted).index_of(key);
        names.lemma_filter_pred(wanted, k);
    }
    if names.contains(key) && wanted(key) {
        let k = names.index_of(key);
        names.lemma_filter_contains(wanted, k);
    }
}

/// The keys that are guarded are the required ones that are declared strings.
pub proof fn law_required_strings_are_required_and_strings(parameters: JsonTree, key: Seq<char>)
    ensures
        required_string_keys(Some(parameters)).contains(key) <==> is_required_string(
            parameters,
            key,
        ),
        required_string_keys(None).len() == 0,
{
    law_required_names_are_the_items(parameters, key);
    match parameters.field("properties"@) {
        Some(JsonTree::Object(properties)) => {
            let object = JsonTree::Object(properties);
            law_field_is_the_first_entry(parameters, "properties"@, object);
            lemma_is_string_key(properties, key);
            lemma_filter_contains(required_names(parameters), is_string_key(properties), key);
            if is_string_key(properties)(key) {
                let schema = choose|schema: JsonTree| #[trigger]
                    entry_is(object, key, schema) && is_typed(schema, "string"@);
                assert(declares(parameters, key, schema));
            }
        },
        _ => {},
    }
    if is_required_string(parameters, key) {
        let schema = choose|schema: JsonTree| #[trigger]
            declares(parameters, key, schema) && is_typed(schema, "string"@);
        let properties = choose|properties: Seq<(Seq<char>, JsonTree)>| #[trigger]
            entry_is(parameters, "properties"@, JsonTree::Object(properties)) && entry_is(
                JsonTree::Object(properties),
                key,
                schema,
            );
        law_field_is_the_first_entry(parameters, "properties"@, JsonTree::Object(properties));
        assert(entry_is(JsonTree::Object(properties), key, schema));
    }
}

proof fn lemma_string_items_add(a: Seq<JsonTree>, b: Seq<JsonTree>)
    ensures
        string_items(a + b) == string_items(a) + string_items(b),
    decreases b.len(),
{
    reveal(Seq::filter_map);
    if b.len() == 0 {
        assert(a + b =~= a);
    } else {
        assert((a + b).drop_last() =~= a + b.drop_last());
        lemma_string_items_add(a, b.drop_last());
        assert(string_items(a + b) =~= string_items(a) + string_items(b));
    }
}

/// The keys that are guarded come in the order of the list under `required`, each as often as it
/// stands there: of two lists in a row, first those of the one and then those of the other.
pub proof fn law_required_strings_keep_the_order(
    first: JsonTree,
    second: JsonTree,
    both: JsonTree,
    properties: JsonTree,
    a: Seq<JsonTree>,
    b: Seq<JsonTree>,
)
    requires
        entry_is(first, "properties"@, properties),
        entry_is(second, "properties"@, properties),
        entry_is(both, "properties"@, properties),
        entry_is(first, "required"@, JsonTree::Array(a)),
        entry_is(second, "required"@, JsonTree::Array(b)),
        entry_is(both, "required"@, JsonTree::Array(a + b)),
    ensures
        required_string_keys(Some(both)) == required_string_keys(Some(first))
            + required_string_keys(Some(second)),
        a.len() == 1 ==> required_string_keys(Some(first)) == match a[0] {
            JsonTree::Text(key) => if is_required_string(first, key) {
                seq![key]
            } else {
                Seq::empty()
            },
            _ => Seq::empty(),
        },
{
    law_field_is_the_first_entry(first, "properties"@, properties);
    law_field_is_the_first_entry(second, "properties"@, properties);
    law_field_is_the_first_entry(both, "properties"@, properties);
    law_field_is_the_first_entry(first, "required"@, JsonTree::Array(a));
    law_field_is_the_first_entry(second, "required"@, JsonTree::Array(b));
    law_field_is_the_first_entry(both, "required"@, JsonTree::Array(a + b));
    lemma_string_items_add(a, b);
    if properties is Object {
        Seq::filter_distributes_over_add(
            string_items(a),
            string_items(b),
            is_string_key(properties->Object_0),
        );
    }
    if a.len() == 1 {
        reveal_with_fuel(Seq::filter_map, 2);
        reveal_with_fuel(Seq::filter, 2);
        let keys = required_string_keys(Some(first));
        if let JsonTree::Text(key) = a[0] {
            assert(string_items(a) =~= seq![key]);
            law_required_strings_are_required_and_strings(first, key);
            if keys.len() > 0 {
                assert(keys[0] == key);
                assert(keys.contains(key));
                assert(keys =~= seq![key]);
            } else {
                assert(keys =~= Seq::empty());
            }
        } else {
            assert(string_items(a) =~= Seq::empty());
            assert(keys =~= Seq::empty());
        }
    }
}

/// For a property whose type is `t`, whatever else its schema holds: an integer or a number takes
/// the decimals, a boolean takes `true` and `false`, a string takes what stands in delimiters,
/// and nothing else.
pub proof fn law_values_of_each_type(
    schema: JsonTree,
    t: Seq<char>,
    required: bool,
    fits: SchemaTexts,
    s: Seq<char>,
)
    requires
        entry_is(schema, "type"@, JsonTree::Text(t)),
    ensures
        same_but_for_case(t, "integer"@) || same_but_for_case(t, "number"@) ==> value_format(
            schema,
            required,
        ) is Some && (value_format(schema, required)->0.accepts(fits, s) <==> is_decimal(s)),
        same_but_for_case(t, "boolean"@) ==> value_format(schema, required) is Some && (
        value_format(schema, required)->0.accepts(fits, s) <==> s == "true"@ || s == "false"@),
        same_but_for_case(t, "string"@) ==> value_format(schema, required) is Some && (value_format(
            schema,
            required,
        )->0.accepts(fits, s) <==> exists|text: Seq<char>|
            (required ==> text.len() > 0) && s == #[trigger] (GEMMA4_STRING_DELIM@ + text
                + GEMMA4_STRING_DELIM@)),
{
    lemma_declared_type(schema, t);
    law_values_follow_the_type(schema, required, fits, s);
    lemma_is_typed(schema, "string"@);
    lemma_is_typed(schema, "integer"@);
    lemma_is_typed(schema, "number"@);
    lemma_is_typed(schema, "boolean"@);
    law_case_is_all_that_is_ignored(t, "string"@);
    law_case_is_all_that_is_ignored(t, "integer"@);
    law_case_is_all_that_is_ignored(t, "number"@);
    law_case_is_all_that_is_ignored(t, "boolean"@);
    lemma_names_apart(t);
    reveal_strlit("true");
    reveal_strlit("false");
    assert("true"@ =~= seq!['t', 'r', 'u', 'e']);
    assert("false"@ =~= seq!['f', 'a', 'l', 's', 'e']);
}

/// Where a list stands under `required`, the names that are required are its strings, whatever
/// other entries the parameters have. Of these, one that is declared with the type of a string
/// is guarded.
pub proof fn law_what_is_listed_is_required(
    parameters: JsonTree,
    items: Seq<JsonTree>,
    name: Seq<char>,
    properties: Seq<(Seq<char>, JsonTree)>,
    schema: JsonTree,
    t: Seq<char>,
)
    requires
        entry_is(parameters, "required"@, JsonTree::Array(items)),
        entry_is(parameters, "properties"@, JsonTree::Object(properties)),
        entry_is(JsonTree::Object(properties), name, schema),
        entry_is(schema, "type"@, JsonTree::Text(t)),
    ensures
        required_names(parameters).contains(name) <==> items.contains(JsonTree::Text(name)),
        required_string_keys(Some(parameters)).contains(name) <==> items.contains(
            JsonTree::Text(name),
        ) && same_but_for_case(t, "string"@),
{
    let object = JsonTree::Object(properties);
    law_field_is_the_first_entry(parameters, "required"@, JsonTree::Array(items));
    law_field_is_the_first_entry(parameters, "properties"@, object);
    law_field_is_the_first_entry(object, name, schema);
    lemma_declared_type(schema, t);
    lemma_string_items(items, name);
    lemma_filter_contains(required_names(parameters), is_string_key(properties), name);
    law_case_is_all_that_is_ignored(t, "string"@);
}

} // verus!
