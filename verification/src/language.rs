//! The texts that a format admits.
//!
//! A format is read as a grammar: it admits a text if there is a way to divide the text among
//! the parts of the format. Where there are several ways, any will do. Only any text that is the
//! content of a tag is held to more: it runs up to the first end marker, and not over it.
use crate::format::{Format, Pattern};
use crate::json::JsonTree;
use vstd::prelude::*;

verus! {

/// Which texts fit which JSON schema.
pub type SchemaTexts = spec_fn(JsonTree, Seq<char>) -> bool;

/// One ASCII digit or more.
pub open spec fn is_digits(s: Seq<char>) -> bool {
    s.len() > 0 && forall|i: int| 0 <= i < s.len() ==> 48 <= #[trigger] s[i] as int <= 57
}

/// Digits, and behind a dot further ones if there is one.
pub open spec fn is_unsigned(s: Seq<char>) -> bool {
    is_digits(s) || exists|n: int|
        0 <= n < s.len() && #[trigger] s[n] == '.' && is_digits(s.take(n)) && is_digits(
            s.skip(n + 1),
        )
}

/// Whether the expression matches the whole text.
pub open spec fn pattern_matches(pattern: Pattern, s: Seq<char>) -> bool {
    match pattern {
        Pattern::NonEmpty => s.len() > 0,
        Pattern::Anything => true,
        Pattern::Decimal => is_unsigned(s) || s.len() > 0 && s[0] == '-' && is_unsigned(s.skip(1)),
    }
}

/// The parts with the separator between each and the next.
pub open spec fn joined(parts: Seq<Seq<char>>, separator: Seq<char>) -> Seq<char>
    decreases parts.len(),
{
    if parts.len() == 0 {
        Seq::empty()
    } else if parts.len() == 1 {
        parts[0]
    } else {
        joined(parts.drop_last(), separator) + separator + parts.last()
    }
}

/// Whether the trigger of rule `r` stands in the text and ends at `end`.
pub open spec fn trigger_ends(
    rules: Seq<(Seq<char>, Format)>,
    s: Seq<char>,
    r: int,
    end: int,
) -> bool {
    &&& 0 <= r < rules.len()
    &&& rules[r].0.len() <= end <= s.len()
    &&& s.subrange(end - rules[r].0.len(), end) == rules[r].0
}

/// Whether the trigger of rule `r` ends at `end`, and none ends before.
pub open spec fn first_trigger_ends(
    rules: Seq<(Seq<char>, Format)>,
    s: Seq<char>,
    r: int,
    end: int,
) -> bool {
    &&& trigger_ends(rules, s, r, end)
    &&& forall|q: int, e: int| #[trigger] trigger_ends(rules, s, q, e) ==> end <= e
}

/// Whether the text runs up to the marker behind it, and the marker does not stand before that. An
/// empty marker ends nothing.
pub open spec fn up_to_first(text: Seq<char>, marker: Seq<char>) -> bool {
    marker.len() > 0 ==> forall|at: int|
        0 <= at < text.len() ==> #[trigger] (text + marker).subrange(at, at + marker.len())
            != marker
}

/// Whether the text may stand in a tag with this content and this end marker.
pub open spec fn fills_tag(
    content: Format,
    end: Seq<char>,
    fits: SchemaTexts,
    text: Seq<char>,
) -> bool {
    &&& content.accepts(fits, text)
    &&& content is AnyText ==> up_to_first(text, end)
}

impl Format {
    /// Whether this format admits the text.
    pub open spec fn accepts(self, fits: SchemaTexts, s: Seq<char>) -> bool
        decreases self, 0nat,
    {
        match self {
            Format::AnyText => true,
            Format::ConstString(value) => s == value,
            Format::Regex(pattern) => pattern_matches(pattern, s),
            Format::JsonSchema(schema) => fits(schema, s),
            Format::Sequence(elements) => Format::accepts_in_turn(elements, fits, s),
            Format::Or(elements) => Format::accepts_any(elements, fits, s),
            Format::Optional(content) => s.len() == 0 || content.accepts(fits, s),
            Format::Tag { begin, content, end } => {
                &&& begin.len() + end.len() <= s.len()
                &&& s.take(begin.len() as int) == begin
                &&& s.skip(s.len() - end.len()) == end
                &&& content.accepts(fits, s.subrange(begin.len() as int, s.len() - end.len()))
                &&& *content is AnyText ==> up_to_first(
                    s.subrange(begin.len() as int, s.len() - end.len()),
                    end,
                )
            },
            Format::TagsWithSeparator {
                tags,
                separator,
                at_least_one,
                stop_after_first,
            } => exists|parts: Seq<Seq<char>>|
                {
                    &&& #[trigger] joined(parts, separator) == s
                    &&& at_least_one ==> parts.len() > 0
                    &&& stop_after_first ==> parts.len() <= 1
                    &&& forall|k: int|
                        0 <= k < parts.len() ==> Format::accepts_any(
                            tags,
                            fits,
                            #[trigger] parts[k],
                        )
                },
            Format::Dispatch { rules, repeat } => Format::accepts_dispatched(
                rules,
                repeat,
                fits,
                s,
            ),
        }
    }

    /// Whether one of these formats admits the text.
    pub open spec fn accepts_any(formats: Seq<Format>, fits: SchemaTexts, s: Seq<char>) -> bool
        decreases formats, 0nat,
    {
        exists|i: int| 0 <= i < formats.len() && (#[trigger] formats[i]).accepts(fits, s)
    }

    /// Whether the text is one piece for each of these formats, one after the other.
    pub open spec fn accepts_in_turn(
        formats: Seq<Format>,
        fits: SchemaTexts,
        s: Seq<char>,
    ) -> bool
        decreases formats, 0nat,
    {
        if formats.len() == 0 {
            s.len() == 0
        } else {
            exists|n: int|
                0 <= n <= s.len() && formats[0].accepts(fits, #[trigger] s.take(n))
                    && Format::accepts_in_turn(formats.drop_first(), fits, s.skip(n))
        }
    }

    /// Whether no trigger stands in the text, or the first is followed by what its rule admits,
    /// and that by nothing or, with `repeat`, by a text for which the same holds again.
    pub open spec fn accepts_dispatched(
        rules: Seq<(Seq<char>, Format)>,
        repeat: bool,
        fits: SchemaTexts,
        s: Seq<char>,
    ) -> bool
        decreases rules, s.len(),
    {
        ||| forall|r: int, end: int| !(#[trigger] trigger_ends(rules, s, r, end))
        ||| exists|r: int, at: int, end: int|
            {
                &&& #[trigger] first_trigger_ends(rules, s, r, at)
                &&& at <= end <= s.len()
                &&& 0 < end
                &&& rules[r].1.accepts(fits, #[trigger] s.subrange(at, end))
                &&& if repeat {
                    Format::accepts_dispatched(rules, repeat, fits, s.skip(end))
                } else {
                    end == s.len()
                }
            }
    }
}

/// One format after the other, of which there is one.
pub proof fn lemma_in_turn_one(format: Format, fits: SchemaTexts, s: Seq<char>)
    ensures
        Format::accepts_in_turn(seq![format], fits, s) <==> format.accepts(fits, s),
{
    let formats = seq![format];
    assert(formats.drop_first() =~= Seq::empty());
    if Format::accepts_in_turn(formats, fits, s) {
        let n = choose|n: int|
            0 <= n <= s.len() && formats[0].accepts(fits, #[trigger] s.take(n))
                && Format::accepts_in_turn(formats.drop_first(), fits, s.skip(n));
        assert(s.take(n) =~= s);
    }
    if format.accepts(fits, s) {
        let n = s.len() as int;
        assert(s.take(n) =~= s);
        assert(Format::accepts_in_turn(formats.drop_first(), fits, s.skip(n)));
    }
}

/// The formats of one list and then those of another: a text for each list.
pub proof fn lemma_in_turn_concat(
    first: Seq<Format>,
    second: Seq<Format>,
    fits: SchemaTexts,
    s: Seq<char>,
)
    ensures
        Format::accepts_in_turn(first + second, fits, s) <==> exists|n: int|
            0 <= n <= s.len() && Format::accepts_in_turn(first, fits, #[trigger] s.take(n))
                && Format::accepts_in_turn(second, fits, s.skip(n)),
    decreases first.len(),
{
    let both = first + second;
    if first.len() == 0 {
        assert(both =~= second);
        if Format::accepts_in_turn(both, fits, s) {
            assert(s.take(0).len() == 0);
            assert(s.skip(0) =~= s);
        }
        if exists|n: int|
            0 <= n <= s.len() && Format::accepts_in_turn(first, fits, #[trigger] s.take(n))
                && Format::accepts_in_turn(second, fits, s.skip(n)) {
            let n = choose|n: int|
                0 <= n <= s.len() && Format::accepts_in_turn(first, fits, #[trigger] s.take(n))
                    && Format::accepts_in_turn(second, fits, s.skip(n));
            assert(n == 0);
            assert(s.skip(0) =~= s);
        }
    } else {
        let rest = first.drop_first();
        assert(both.drop_first() =~= rest + second);
        if Format::accepts_in_turn(both, fits, s) {
            let m = choose|m: int|
                0 <= m <= s.len() && both[0].accepts(fits, #[trigger] s.take(m))
                    && Format::accepts_in_turn(both.drop_first(), fits, s.skip(m));
            let tail = s.skip(m);
            lemma_in_turn_concat(rest, second, fits, tail);
            let k = choose|k: int|
                0 <= k <= tail.len() && Format::accepts_in_turn(rest, fits, #[trigger] tail.take(k))
                    && Format::accepts_in_turn(second, fits, tail.skip(k));
            let n = m + k;
            assert(s.take(n).take(m) =~= s.take(m));
            assert(s.take(n).skip(m) =~= tail.take(k));
            assert(s.skip(n) =~= tail.skip(k));
            assert(Format::accepts_in_turn(first, fits, s.take(n)));
        }
        if exists|n: int|
            0 <= n <= s.len() && Format::accepts_in_turn(first, fits, #[trigger] s.take(n))
                && Format::accepts_in_turn(second, fits, s.skip(n)) {
            let n = choose|n: int|
                0 <= n <= s.len() && Format::accepts_in_turn(first, fits, #[trigger] s.take(n))
                    && Format::accepts_in_turn(second, fits, s.skip(n));
            let head = s.take(n);
            let m = choose|m: int|
                0 <= m <= head.len() && first[0].accepts(fits, #[trigger] head.take(m))
                    && Format::accepts_in_turn(first.drop_first(), fits, head.skip(m));
            let tail = s.skip(m);
            assert(head.take(m) =~= s.take(m));
            assert(head.skip(m) =~= tail.take(n - m));
            assert(s.skip(n) =~= tail.skip(n - m));
            lemma_in_turn_concat(rest, second, fits, tail);
            assert(both[0] == first[0]);
            assert(Format::accepts_in_turn(both, fits, s));
        }
    }
}

/// Two formats, one after the other: a text for each.
pub proof fn lemma_in_turn_two(first: Format, second: Format, fits: SchemaTexts, s: Seq<char>)
    ensures
        Format::accepts_in_turn(seq![first, second], fits, s) <==> exists|n: int|
            0 <= n <= s.len() && first.accepts(fits, #[trigger] s.take(n)) && second.accepts(
                fits,
                s.skip(n),
            ),
{
    assert(seq![first, second] =~= seq![first] + seq![second]);
    lemma_in_turn_concat(seq![first], seq![second], fits, s);
    assert forall|n: int| 0 <= n <= s.len() implies Format::accepts_in_turn(
        seq![first],
        fits,
        #[trigger] s.take(n),
    ) == first.accepts(fits, s.take(n)) && Format::accepts_in_turn(seq![second], fits, s.skip(n))
        == second.accepts(fits, s.skip(n)) by {
        lemma_in_turn_one(first, fits, s.take(n));
        lemma_in_turn_one(second, fits, s.skip(n));
    }
}

/// A format between two fixed texts.
pub proof fn lemma_between(
    open: Seq<char>,
    inner: Format,
    close: Seq<char>,
    fits: SchemaTexts,
    s: Seq<char>,
)
    ensures
        Format::Sequence(
            seq![Format::ConstString(open), inner, Format::ConstString(close)],
        ).accepts(fits, s) <==> exists|body: Seq<char>|
            inner.accepts(fits, body) && s == #[trigger] (open + body + close),
{
    let first = Format::ConstString(open);
    let last = Format::ConstString(close);
    let all = seq![first, inner, last];
    assert(all =~= seq![first] + seq![inner, last]);
    lemma_in_turn_concat(seq![first], seq![inner, last], fits, s);
    if Format::accepts_in_turn(all, fits, s) {
        let n = choose|n: int|
            0 <= n <= s.len() && Format::accepts_in_turn(seq![first], fits, #[trigger] s.take(n))
                && Format::accepts_in_turn(seq![inner, last], fits, s.skip(n));
        lemma_in_turn_one(first, fits, s.take(n));
        let tail = s.skip(n);
        lemma_in_turn_two(inner, last, fits, tail);
        let m = choose|m: int|
            0 <= m <= tail.len() && inner.accepts(fits, #[trigger] tail.take(m)) && last.accepts(
                fits,
                tail.skip(m),
            );
        assert(s =~= open + tail.take(m) + close);
    }
    if exists|body: Seq<char>|
        inner.accepts(fits, body) && s == #[trigger] (open + body + close) {
        let body = choose|body: Seq<char>|
            inner.accepts(fits, body) && s == #[trigger] (open + body + close);
        let n = open.len() as int;
        let tail = s.skip(n);
        assert(s.take(n) =~= open);
        lemma_in_turn_one(first, fits, s.take(n));
        assert(tail.take(body.len() as int) =~= body);
        assert(tail.skip(body.len() as int) =~= close);
        lemma_in_turn_two(inner, last, fits, tail);
        assert(Format::accepts_in_turn(seq![inner, last], fits, s.skip(n)));
    }
}

/// A tag admits its markers around what may stand between them.
pub proof fn lemma_tag(
    begin: Seq<char>,
    content: Format,
    end: Seq<char>,
    fits: SchemaTexts,
    s: Seq<char>,
)
    ensures
        (Format::Tag { begin, content: Box::new(content), end }).accepts(fits, s) <==> exists|
            body: Seq<char>,
        |
            fills_tag(content, end, fits, body) && s == #[trigger] (begin + body + end),
{
    let tag = Format::Tag { begin, content: Box::new(content), end };
    if tag.accepts(fits, s) {
        let body = s.subrange(begin.len() as int, s.len() - end.len());
        assert(s =~= begin + body + end);
    }
    if exists|body: Seq<char>| fills_tag(content, end, fits, body) && s == #[trigger] (begin + body + end) {
        let body = choose|body: Seq<char>|
            fills_tag(content, end, fits, body) && s == #[trigger] (begin + body + end);
        assert(s.take(begin.len() as int) =~= begin);
        assert(s.skip(s.len() - end.len()) =~= end);
        assert(s.subrange(begin.len() as int, s.len() - end.len()) =~= body);
    }
}

/// At least one tag, and none behind the first: one of the tags.
pub proof fn lemma_exactly_one_tag(
    tags: Seq<Format>,
    separator: Seq<char>,
    fits: SchemaTexts,
    s: Seq<char>,
)
    ensures
        (Format::TagsWithSeparator {
            tags,
            separator,
            at_least_one: true,
            stop_after_first: true,
        }).accepts(fits, s) <==> Format::accepts_any(tags, fits, s),
{
    let single = Format::TagsWithSeparator {
        tags,
        separator,
        at_least_one: true,
        stop_after_first: true,
    };
    if single.accepts(fits, s) {
        let parts = choose|parts: Seq<Seq<char>>|
            {
                &&& #[trigger] joined(parts, separator) == s
                &&& parts.len() > 0
                &&& parts.len() <= 1
                &&& forall|k: int|
                    0 <= k < parts.len() ==> Format::accepts_any(tags, fits, #[trigger] parts[k])
            };
        assert(parts[0] == s);
    }
    if Format::accepts_any(tags, fits, s) {
        let parts = seq![s];
        assert(joined(parts, single->TagsWithSeparator_separator) == s);
        assert(Format::accepts_any(single->TagsWithSeparator_tags, fits, parts[0]));
        assert(single.accepts(fits, s));
    }
}

} // verus!
