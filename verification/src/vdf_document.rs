//! Well-formed VDF documents, and what the parser reads back from them.
//!
//! A document is a sequence of items: key/value pairs and sections (a key
//! with nested items). Its tokens are the keys and values as strings and the
//! sections' braces; its text writes each token on a line of its own.

use vstd::prelude::*;

use crate::vdf::{
    find_quote, lemma_find_quote, lex, parse_tokens, run_tokens, set_top, vdf_parse, VdfData,
    VdfTokenType,
};

verus! {

/// An item of a VDF document.
pub enum VdfItem {
    Pair(Seq<char>, Seq<char>),
    Section(Seq<char>, Seq<VdfItem>),
}

/// The tokens of one item.
pub open spec fn item_tokens(item: VdfItem) -> Seq<(VdfTokenType, Seq<char>)>
    decreases item,
{
    match item {
        VdfItem::Pair(k, v) => seq![(VdfTokenType::String, k), (VdfTokenType::String, v)],
        VdfItem::Section(k, items) => seq![
            (VdfTokenType::String, k),
            (VdfTokenType::BraceStart, "{"@),
        ] + items_tokens(items) + seq![(VdfTokenType::BraceEnd, "}"@)],
    }
}

/// The tokens of a sequence of items.
pub open spec fn items_tokens(items: Seq<VdfItem>) -> Seq<(VdfTokenType, Seq<char>)>
    decreases items,
{
    if items.len() == 0 {
        Seq::empty()
    } else {
        item_tokens(items[0]) + items_tokens(items.drop_first())
    }
}

/// Records an item in a table: a later key replaces an earlier one.
pub open spec fn apply_item(m: Map<Seq<char>, VdfData>, item: VdfItem) -> Map<Seq<char>, VdfData>
    decreases item,
{
    match item {
        VdfItem::Pair(k, v) => m.insert(k, VdfData::Text(v)),
        VdfItem::Section(k, items) => m.insert(k, VdfData::Table(apply_items(Map::empty(), items))),
    }
}

/// Records items in a table, in order.
pub open spec fn apply_items(m: Map<Seq<char>, VdfData>, items: Seq<VdfItem>) -> Map<
    Seq<char>,
    VdfData,
>
    decreases items,
{
    if items.len() == 0 {
        m
    } else {
        apply_items(apply_item(m, items[0]), items.drop_first())
    }
}

/// The table that a document describes.
pub open spec fn document_table(items: Seq<VdfItem>) -> Map<Seq<char>, VdfData> {
    apply_items(Map::empty(), items)
}

/// Text without a double quote.
pub open spec fn quote_free(s: Seq<char>) -> bool {
    forall|j: int| 0 <= j < s.len() ==> s[j] != '"'
}

/// No key or value of the item holds a double quote.
pub open spec fn item_quote_free(item: VdfItem) -> bool
    decreases item,
{
    match item {
        VdfItem::Pair(k, v) => quote_free(k) && quote_free(v),
        VdfItem::Section(k, items) => quote_free(k) && items_quote_free(items),
    }
}

/// No key or value of the items holds a double quote.
pub open spec fn items_quote_free(items: Seq<VdfItem>) -> bool
    decreases items,
{
    if items.len() == 0 {
        true
    } else {
        item_quote_free(items[0]) && items_quote_free(items.drop_first())
    }
}

/// The text of one token.
pub open spec fn token_text(t: (VdfTokenType, Seq<char>)) -> Seq<char> {
    match t.0 {
        VdfTokenType::String => seq!['"'] + t.1 + seq!['"'],
        VdfTokenType::BraceStart => seq!['{'],
        VdfTokenType::BraceEnd => seq!['}'],
    }
}

/// The text of a token sequence, one token per line.
pub open spec fn render_tokens(ts: Seq<(VdfTokenType, Seq<char>)>) -> Seq<char>
    decreases ts.len(),
{
    if ts.len() == 0 {
        Seq::empty()
    } else {
        token_text(ts[0]) + seq!['\n'] + render_tokens(ts.drop_first())
    }
}

/// The text of a document.
pub open spec fn render_document(items: Seq<VdfItem>) -> Seq<char> {
    render_tokens(items_tokens(items))
}

/// Tokens that their text gives back: strings without quotes, braces as
/// the tokenizer names them.
pub open spec fn tokens_renderable(ts: Seq<(VdfTokenType, Seq<char>)>) -> bool {
    forall|i: int| 0 <= i < ts.len() ==> token_renderable(#[trigger] ts[i])
}

/// A token that its text gives back.
pub open spec fn token_renderable(t: (VdfTokenType, Seq<char>)) -> bool {
    match t.0 {
        VdfTokenType::String => quote_free(t.1),
        VdfTokenType::BraceStart => t.1 == "{"@,
        VdfTokenType::BraceEnd => t.1 == "}"@,
    }
}

pub proof fn lemma_find_quote_after(v: Seq<char>, x: Seq<char>)
    requires
        quote_free(v),
    ensures
        find_quote(v + seq!['"'] + x) == Some(v.len() as int),
{
    let s = v + seq!['"'] + x;
    lemma_find_quote(s);
    assert(s[v.len() as int] == '"');
    match find_quote(s) {
        Some(k) => {
            if k < v.len() {
                assert(s[k] == v[k]);
            }
        },
        None => {},
    }
}

/// The tokenizer reads back the tokens of a rendered token sequence.
pub proof fn lemma_lex_render(ts: Seq<(VdfTokenType, Seq<char>)>, pos: nat)
    requires
        tokens_renderable(ts),
    ensures
        lex(render_tokens(ts), pos) == Ok::<Seq<(VdfTokenType, Seq<char>)>, Seq<char>>(ts),
    decreases ts.len(),
{
    if ts.len() == 0 {
        assert(ts =~= Seq::<(VdfTokenType, Seq<char>)>::empty());
    } else {
        let t = ts[0];
        let tail = ts.drop_first();
        let r = render_tokens(tail);
        let s = render_tokens(ts);
        assert(s == token_text(t) + seq!['\n'] + r);
        assert(tokens_renderable(tail)) by {
            assert forall|i: int| 0 <= i < tail.len() implies token_renderable(tail[i]) by {
                assert(tail[i] == ts[i + 1]);
            }
        }
        let nl = seq!['\n'] + r;
        assert(nl[0] == '\n');
        assert(nl.drop_first() =~= r);
        match t.0 {
            VdfTokenType::String => {
                let v = t.1;
                assert(quote_free(v));
                assert(s.drop_first() =~= v + seq!['"'] + nl);
                lemma_find_quote_after(v, nl);
                let k = v.len() as int;
                assert(s[0] == '"');
                assert(!crate::text::is_unicode_whitespace(s[0]));
                assert(s.subrange(1, k + 1) =~= v);
                assert(s.skip(k + 2) =~= nl);
                let p1 = pos + crate::text::utf8_len(s.take(k + 2));
                assert(crate::text::is_unicode_whitespace(nl[0]));
                assert(crate::text::char_width(nl[0]) == 1);
                lemma_lex_render(tail, p1 + 1);
                assert(lex(nl, p1) == lex(r, p1 + 1));
                assert(seq![t] + tail =~= ts);
                assert(lex(s, pos) == crate::vdf::prepend_token(
                    (VdfTokenType::String, v),
                    lex(nl, p1),
                ));
            },
            VdfTokenType::BraceStart => {
                assert(s.drop_first() =~= nl);
                assert(s[0] == '{');
                assert(!crate::text::is_unicode_whitespace(s[0]));
                assert(crate::text::is_unicode_whitespace(nl[0]));
                assert(crate::text::char_width(nl[0]) == 1);
                lemma_lex_render(tail, pos + 1 + 1);
                assert(lex(nl, pos + 1) == lex(r, pos + 1 + 1));
                assert(seq![(VdfTokenType::BraceStart, "{"@)] + tail =~= ts);
            },
            VdfTokenType::BraceEnd => {
                assert(s.drop_first() =~= nl);
                assert(s[0] == '}');
                assert(!crate::text::is_unicode_whitespace(s[0]));
                assert(crate::text::is_unicode_whitespace(nl[0]));
                assert(crate::text::char_width(nl[0]) == 1);
                lemma_lex_render(tail, pos + 1 + 1);
                assert(lex(nl, pos + 1) == lex(r, pos + 1 + 1));
                assert(seq![(VdfTokenType::BraceEnd, "}"@)] + tail =~= ts);
            },
        }
    }
}

proof fn lemma_renderable_append(a: Seq<(VdfTokenType, Seq<char>)>, b: Seq<(VdfTokenType, Seq<char>)>)
    requires
        tokens_renderable(a),
        tokens_renderable(b),
    ensures
        tokens_renderable(a + b),
{
    assert forall|i: int| 0 <= i < (a + b).len() implies token_renderable((a + b)[i]) by {
        if i < a.len() {
            assert((a + b)[i] == a[i]);
        } else {
            assert((a + b)[i] == b[i - a.len()]);
        }
    }
}

proof fn lemma_item_renderable(item: VdfItem)
    requires
        item_quote_free(item),
    ensures
        tokens_renderable(item_tokens(item)),
    decreases item,
{
    match item {
        VdfItem::Pair(k, v) => {
            let ts = item_tokens(item);
            assert forall|i: int| 0 <= i < ts.len() implies token_renderable(ts[i]) by {
                if i == 0 {
                } else {
                }
            }
        },
        VdfItem::Section(k, items) => {
            lemma_items_renderable(items);
            let open = seq![(VdfTokenType::String, k), (VdfTokenType::BraceStart, "{"@)];
            let close = seq![(VdfTokenType::BraceEnd, "}"@)];
            assert(tokens_renderable(open)) by {
                assert forall|i: int| 0 <= i < open.len() implies token_renderable(open[i]) by {
                    if i == 0 {
                    } else {
                    }
                }
            }
            assert(tokens_renderable(close)) by {
                assert forall|i: int| 0 <= i < close.len() implies token_renderable(close[i]) by {
                    assert(i == 0);
                }
            }
            lemma_renderable_append(open, items_tokens(items));
            lemma_renderable_append(open + items_tokens(items), close);
        },
    }
}

proof fn lemma_items_renderable(items: Seq<VdfItem>)
    requires
        items_quote_free(items),
    ensures
        tokens_renderable(items_tokens(items)),
    decreases items,
{
    if items.len() == 0 {
    } else {
        lemma_item_renderable(items[0]);
        lemma_items_renderable(items.drop_first());
        lemma_renderable_append(item_tokens(items[0]), items_tokens(items.drop_first()));
    }
}

/// Reading the tokens of an item records the item in the innermost frame.
proof fn lemma_run_item(
    frames: Seq<Map<Seq<char>, VdfData>>,
    keys: Seq<Seq<char>>,
    item: VdfItem,
    rest: Seq<(VdfTokenType, Seq<char>)>,
)
    requires
        frames.len() >= 1,
        keys.len() + 1 == frames.len(),
    ensures
        run_tokens(frames, keys, item_tokens(item) + rest) == run_tokens(
            set_top(frames, apply_item(frames.last(), item)),
            keys,
            rest,
        ),
    decreases item,
{
    let toks = item_tokens(item) + rest;
    match item {
        VdfItem::Pair(k, v) => {
            assert(toks[0] == (VdfTokenType::String, k));
            assert(toks[1] == (VdfTokenType::String, v));
            assert(toks.skip(2) =~= rest);
        },
        VdfItem::Section(k, items) => {
            let close = seq![(VdfTokenType::BraceEnd, "}"@)];
            assert(toks[0] == (VdfTokenType::String, k));
            assert(toks[1] == (VdfTokenType::BraceStart, "{"@));
            assert(toks.skip(2) =~= items_tokens(items) + (close + rest));
            let inner = frames.push(Map::<Seq<char>, VdfData>::empty());
            lemma_run_items(inner, keys.push(k), items, close + rest);
            let table = apply_items(Map::empty(), items);
            assert(inner.last() == Map::<Seq<char>, VdfData>::empty());
            let after = set_top(inner, table);
            assert(after =~= frames.push(table));
            let t2 = close + rest;
            assert(t2[0] == (VdfTokenType::BraceEnd, "}"@));
            assert(t2.drop_first() =~= rest);
            assert(after.drop_last() =~= frames);
            assert(keys.push(k).drop_last() =~= keys);
            assert(after.last() == table);
        },
    }
}

/// Reading the tokens of items records them, in order, in the innermost frame.
proof fn lemma_run_items(
    frames: Seq<Map<Seq<char>, VdfData>>,
    keys: Seq<Seq<char>>,
    items: Seq<VdfItem>,
    rest: Seq<(VdfTokenType, Seq<char>)>,
)
    requires
        frames.len() >= 1,
        keys.len() + 1 == frames.len(),
    ensures
        run_tokens(frames, keys, items_tokens(items) + rest) == run_tokens(
            set_top(frames, apply_items(frames.last(), items)),
            keys,
            rest,
        ),
    decreases items,
{
    if items.len() == 0 {
        assert(items_tokens(items) + rest =~= rest);
        assert(set_top(frames, frames.last()) =~= frames);
    } else {
        let head = items[0];
        let tail = items.drop_first();
        assert(items_tokens(items) + rest =~= item_tokens(head) + (items_tokens(tail) + rest));
        lemma_run_item(frames, keys, head, items_tokens(tail) + rest);
        let f1 = set_top(frames, apply_item(frames.last(), head));
        lemma_run_items(f1, keys, tail, rest);
        assert(f1.last() == apply_item(frames.last(), head));
        assert(set_top(f1, apply_items(f1.last(), tail)) =~= set_top(
            frames,
            apply_items(frames.last(), items),
        ));
    }
}

/// Parsing the text of a non-empty document whose keys and values hold no
/// double quote gives back the table that the document describes: each key
/// maps to its value, or to the table of its section, and a later occurrence
/// of a key replaces an earlier one.
pub proof fn lemma_parse_reads_back(items: Seq<VdfItem>)
    requires
        items.len() > 0,
        items_quote_free(items),
    ensures
        vdf_parse(render_document(items)) == Ok::<Map<Seq<char>, VdfData>, Seq<char>>(
            document_table(items),
        ),
{
    let ts = items_tokens(items);
    lemma_items_renderable(items);
    lemma_lex_render(ts, 0);
    assert(item_tokens(items[0])[0].0 == VdfTokenType::String);
    assert(ts[0] == item_tokens(items[0])[0]);
    let root = seq![Map::<Seq<char>, VdfData>::empty()];
    lemma_run_items(root, Seq::empty(), items, Seq::empty());
    assert(ts + Seq::<(VdfTokenType, Seq<char>)>::empty() =~= ts);
    assert(set_top(root, apply_items(Map::empty(), items)).last() == apply_items(Map::empty(), items));
}

} // verus!
