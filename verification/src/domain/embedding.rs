//! Embedding prefixes: what is put before a passage or a query, depending on the model.

use crate::text;
use vstd::prelude::*;

verus! {

/// E5 prefix of stored passages.
pub const PASSAGE_PREFIX: &'static str = "passage: ";

/// E5 prefix of queries.
pub const QUERY_PREFIX: &'static str = "query: ";

/// The instruction before a query to an instruction-tuned Qwen model.
pub const QWEN_QUERY_INSTRUCT: &'static str = "Instruct: Given a code search query, retrieve relevant code\nQuery: ";

/// The prefix policy of an embedding model.
#[derive(Clone, Copy, Debug, PartialEq, Eq, Structural)]
pub enum PrefixStyle {
    /// A prefix before passages and another before queries.
    E5,
    /// Bare passages; an instruction before queries.
    Qwen,
    /// No prefix on either side.
    Bare,
}

/// The style a config value names, whatever its case.
pub open spec fn named_style(s: Seq<char>) -> Option<PrefixStyle> {
    if text::lower(s) == "e5"@ {
        Some(PrefixStyle::E5)
    } else if text::lower(s) == "qwen"@ {
        Some(PrefixStyle::Qwen)
    } else if text::lower(s) == "none"@ {
        Some(PrefixStyle::Bare)
    } else {
        None
    }
}

/// The style of a model, by its name.
pub open spec fn style_of_model(model: Seq<char>) -> PrefixStyle {
    if text::has(text::lower(model), "e5"@) {
        PrefixStyle::E5
    } else if text::has(text::lower(model), "qwen"@) {
        PrefixStyle::Qwen
    } else {
        PrefixStyle::Bare
    }
}

/// What is put before a passage.
pub open spec fn passage_prefix(style: PrefixStyle) -> Seq<char> {
    match style {
        PrefixStyle::E5 => PASSAGE_PREFIX@,
        PrefixStyle::Qwen => Seq::empty(),
        PrefixStyle::Bare => Seq::empty(),
    }
}

/// What is put before a query.
pub open spec fn query_prefix(style: PrefixStyle) -> Seq<char> {
    match style {
        PrefixStyle::E5 => QUERY_PREFIX@,
        PrefixStyle::Qwen => QWEN_QUERY_INSTRUCT@,
        PrefixStyle::Bare => Seq::empty(),
    }
}

/// A `prefix_style` that names no style, in lower case.
#[derive(Debug)]
pub struct UnknownPrefixStyle {
    pub name: String,
}

impl UnknownPrefixStyle {
    /// What to tell the user.
    pub fn message(&self) -> (r: String)
        ensures
            r@ == "unknown prefix_style '"@ + self.name@ + "' (expected 'e5', 'qwen', or 'none')"@,
    {
        "unknown prefix_style '".to_string().concat(self.name.as_str()).concat(
            "' (expected 'e5', 'qwen', or 'none')",
        )
    }
}

impl PrefixStyle {
    /// The style that a config value names.
    pub fn parse(s: &str) -> (r: Result<PrefixStyle, UnknownPrefixStyle>)
        ensures
            match r {
                Ok(style) => named_style(s@) == Some(style),
                Err(e) => named_style(s@) is None && e.name@ == text::lower(s@),
            },
    {
        let name = text::to_lower(s);
        if text::same(name.as_str(), "e5") {
            Ok(PrefixStyle::E5)
        } else if text::same(name.as_str(), "qwen") {
            Ok(PrefixStyle::Qwen)
        } else if text::same(name.as_str(), "none") {
            Ok(PrefixStyle::Bare)
        } else {
            Err(UnknownPrefixStyle { name })
        }
    }

    /// The style of a model, by its name.
    pub fn detect(model: &str) -> (r: PrefixStyle)
        ensures
            r == style_of_model(model@),
    {
        let m = text::to_lower(model);
        if text::contains(m.as_str(), "e5") {
            PrefixStyle::E5
        } else if text::contains(m.as_str(), "qwen") {
            PrefixStyle::Qwen
        } else {
            PrefixStyle::Bare
        }
    }
}

/// A passage as it is embedded and stored.
pub fn format_passage(style: PrefixStyle, body: &str) -> (r: String)
    ensures
        r@ == passage_prefix(style) + body@,
{
    match style {
        PrefixStyle::E5 => PASSAGE_PREFIX.to_string().concat(body),
        PrefixStyle::Qwen => {
            assert(Seq::<char>::empty() + body@ =~= body@);
            body.to_string()
        },
        PrefixStyle::Bare => {
            assert(Seq::<char>::empty() + body@ =~= body@);
            body.to_string()
        },
    }
}

/// A query as it is embedded.
pub fn format_query(style: PrefixStyle, body: &str) -> (r: String)
    ensures
        r@ == query_prefix(style) + body@,
{
    match style {
        PrefixStyle::E5 => QUERY_PREFIX.to_string().concat(body),
        PrefixStyle::Qwen => QWEN_QUERY_INSTRUCT.to_string().concat(body),
        PrefixStyle::Bare => {
            assert(Seq::<char>::empty() + body@ =~= body@);
            body.to_string()
        },
    }
}

/// A prefix never hides the text: two passages of one style are equal only if their texts are, and
/// so are two queries.
pub proof fn law_prefixes_keep_texts_apart(style: PrefixStyle, a: Seq<char>, b: Seq<char>)
    ensures
        passage_prefix(style) + a == passage_prefix(style) + b ==> a == b,
        query_prefix(style) + a == query_prefix(style) + b ==> a == b,
{
    let p = passage_prefix(style);
    let q = query_prefix(style);
    assert((p + a).skip(p.len() as int) =~= a);
    assert((p + b).skip(p.len() as int) =~= b);
    assert((q + a).skip(q.len() as int) =~= a);
    assert((q + b).skip(q.len() as int) =~= b);
}

/// E5 models get `passage: ` before a passage and `query: ` before a query, Qwen models an instruction
/// before a query alone, and other models nothing.
pub proof fn law_prefixes(style: PrefixStyle)
    ensures
        passage_prefix(style).len() == 0 <==> style != PrefixStyle::E5,
        query_prefix(style).len() == 0 <==> style == PrefixStyle::Bare,
        style == PrefixStyle::E5 ==> passage_prefix(style) == "passage: "@ && query_prefix(style) == "query: "@,
        style == PrefixStyle::Qwen ==> query_prefix(style)
            == "Instruct: Given a code search query, retrieve relevant code\nQuery: "@,
{
    reveal_strlit("passage: ");
    reveal_strlit("query: ");
    reveal_strlit("Instruct: Given a code search query, retrieve relevant code\nQuery: ");
}

/// The style of a model follows from what its name holds, whatever the case: `e5` makes it E5, `qwen`
/// without `e5` Qwen, and neither of them bare.
pub proof fn law_style_of_model(model: Seq<char>)
    ensures
        style_of_model(model) == PrefixStyle::E5 <==> text::has(text::lower(model), "e5"@),
        style_of_model(model) == PrefixStyle::Qwen <==> text::has(text::lower(model), "qwen"@) && !text::has(
            text::lower(model),
            "e5"@,
        ),
        style_of_model(text::lower(model)) == style_of_model(model),
{
    text::law_lower(model);
}

/// A config value names a style exactly if it is `e5`, `qwen` or `none`, whatever the case.
pub proof fn law_named_style(s: Seq<char>)
    ensures
        named_style(s) == Some(PrefixStyle::E5) <==> text::lower(s) == "e5"@,
        named_style(s) == Some(PrefixStyle::Qwen) <==> text::lower(s) == "qwen"@,
        named_style(s) == Some(PrefixStyle::Bare) <==> text::lower(s) == "none"@,
        named_style(text::lower(s)) == named_style(s),
{
    text::law_lower(s);
    reveal_strlit("e5");
    reveal_strlit("qwen");
    reveal_strlit("none");
    assert("e5"@.len() == 2 && "qwen"@[0] == 'q' && "none"@[0] == 'n' && "qwen"@.len() == 4);
}

} // verus!
