//! The layout of VDF text: any whitespace, or none, may stand before,
//! between and after its tokens, and the tokens alone decide what the text
//! parses to.

use vstd::prelude::*;

use crate::text::{char_width, is_unicode_whitespace, utf8_len};
use crate::vdf::{find_quote, lemma_find_quote, lex, parse_tokens, prepend_token, vdf_parse, VdfTokenType};
use crate::vdf_document::{lemma_find_quote_after, token_renderable, token_text, tokens_renderable};

verus! {

/// Text made of whitespace only (possibly none).
pub open spec fn blank(g: Seq<char>) -> bool {
    forall|i: int| 0 <= i < g.len() ==> is_unicode_whitespace(#[trigger] g[i])
}

/// Gaps that can stand around `n` tokens: `n + 1` runs of whitespace.
pub open spec fn blank_gaps(gaps: Seq<Seq<char>>, n: nat) -> bool {
    gaps.len() == n + 1 && forall|i: int| 0 <= i < gaps.len() ==> blank(#[trigger] gaps[i])
}

/// The tokens `ts` written out with `gaps[i]` before token `i` and the last
/// gap after the last token.
pub open spec fn render_spaced(ts: Seq<(VdfTokenType, Seq<char>)>, gaps: Seq<Seq<char>>) -> Seq<char>
    decreases ts.len(),
{
    if ts.len() == 0 {
        gaps[0]
    } else {
        gaps[0] + token_text(ts[0]) + render_spaced(ts.drop_first(), gaps.drop_first())
    }
}

/// Leading whitespace only moves the byte position.
proof fn lemma_lex_blank(g: Seq<char>, x: Seq<char>, pos: nat)
    requires
        blank(g),
    ensures
        lex(g + x, pos) == lex(x, pos + utf8_len(g)),
    decreases g.len(),
{
    if g.len() == 0 {
        assert(g + x =~= x);
    } else {
        assert(is_unicode_whitespace(g[0]));
        assert((g + x)[0] == g[0]);
        assert((g + x).drop_first() =~= g.drop_first() + x);
        lemma_lex_blank(g.drop_first(), x, pos + char_width(g[0]));
    }
}

proof fn lemma_gaps_tail(gaps: Seq<Seq<char>>, n: nat)
    requires
        n > 0,
        blank_gaps(gaps, n),
    ensures
        blank_gaps(gaps.drop_first(), (n - 1) as nat),
        blank(gaps[0]),
{
    assert forall|i: int| 0 <= i < gaps.drop_first().len() implies blank(#[trigger] gaps.drop_first()[i]) by {
        assert(gaps.drop_first()[i] == gaps[i + 1]);
    }
}

/// The tokenizer reads back tokens written with any whitespace, or none,
/// around and between them.
pub proof fn lemma_lex_spaced(ts: Seq<(VdfTokenType, Seq<char>)>, gaps: Seq<Seq<char>>, pos: nat)
    requires
        tokens_renderable(ts),
        blank_gaps(gaps, ts.len()),
    ensures
        lex(render_spaced(ts, gaps), pos) == Ok::<Seq<(VdfTokenType, Seq<char>)>, Seq<char>>(ts),
    decreases ts.len(),
{
    if ts.len() == 0 {
        assert(blank(gaps[0]));
        assert(gaps[0] =~= gaps[0] + Seq::<char>::empty());
        lemma_lex_blank(gaps[0], Seq::<char>::empty(), pos);
        assert(ts =~= Seq::<(VdfTokenType, Seq<char>)>::empty());
    } else {
        lemma_gaps_tail(gaps, ts.len());
        let t = ts[0];
        let tail = ts.drop_first();
        assert(tokens_renderable(tail)) by {
            assert forall|i: int| 0 <= i < tail.len() implies token_renderable(#[trigger] tail[i]) by {
                assert(tail[i] == ts[i + 1]);
            }
        }
        assert(token_renderable(ts[0]));
        let r = render_spaced(tail, gaps.drop_first());
        let body = token_text(t) + r;
        assert(render_spaced(ts, gaps) =~= gaps[0] + body);
        lemma_lex_blank(gaps[0], body, pos);
        let p = pos + utf8_len(gaps[0]);
        assert(seq![t] + tail =~= ts);
        match t.0 {
            VdfTokenType::String => {
                let v = t.1;
                assert(body.drop_first() =~= v + seq!['"'] + r);
                lemma_find_quote_after(v, r);
                let k = v.len() as int;
                assert(body[0] == '"');
                assert(body.subrange(1, k + 1) =~= v);
                assert(body.skip(k + 2) =~= r);
                lemma_lex_spaced(tail, gaps.drop_first(), p + utf8_len(body.take(k + 2)));
                assert(lex(body, p) == prepend_token((VdfTokenType::String, v), lex(r, p + utf8_len(body.take(k + 2)))));
            },
            VdfTokenType::BraceStart => {
                assert(body[0] == '{');
                assert(body.drop_first() =~= r);
                lemma_lex_spaced(tail, gaps.drop_first(), p + 1);
            },
            VdfTokenType::BraceEnd => {
                assert(body[0] == '}');
                assert(body.drop_first() =~= r);
                lemma_lex_spaced(tail, gaps.drop_first(), p + 1);
            },
        }
    }
}

proof fn lemma_render_prefix_gap(ts: Seq<(VdfTokenType, Seq<char>)>, gaps: Seq<Seq<char>>, pre: Seq<char>)
    requires
        gaps.len() == ts.len() + 1,
    ensures
        render_spaced(ts, gaps.update(0, pre + gaps[0])) == pre + render_spaced(ts, gaps),
{
    let g2 = gaps.update(0, pre + gaps[0]);
    if ts.len() > 0 {
        assert(g2.drop_first() =~= gaps.drop_first());
        assert(pre + gaps[0] + token_text(ts[0]) + render_spaced(ts.drop_first(), gaps.drop_first())
            =~= pre + (gaps[0] + token_text(ts[0]) + render_spaced(ts.drop_first(), gaps.drop_first())));
    }
}

/// Text that the tokenizer accepts is its tokens written with whitespace
/// runs around and between them; the gaps are returned.
pub proof fn lemma_lex_layout(s: Seq<char>, pos: nat) -> (gaps: Seq<Seq<char>>)
    requires
        lex(s, pos) is Ok,
    ensures
        tokens_renderable(lex(s, pos)->Ok_0),
        blank_gaps(gaps, lex(s, pos)->Ok_0.len()),
        s == render_spaced(lex(s, pos)->Ok_0, gaps),
    decreases s.len(),
{
    let ts = lex(s, pos)->Ok_0;
    if s.len() == 0 {
        let gaps = seq![s];
        assert(ts =~= Seq::<(VdfTokenType, Seq<char>)>::empty());
        assert(blank(gaps[0]));
        gaps
    } else {
        let c = s[0];
        if is_unicode_whitespace(c) {
            let g1 = lemma_lex_layout(s.drop_first(), pos + char_width(c));
            let gaps = g1.update(0, seq![c] + g1[0]);
            lemma_render_prefix_gap(ts, g1, seq![c]);
            assert(s =~= seq![c] + s.drop_first());
            assert(blank(gaps[0])) by {
                assert forall|i: int| 0 <= i < gaps[0].len() implies is_unicode_whitespace(#[trigger] gaps[0][i]) by {
                    if i > 0 {
                        assert(gaps[0][i] == g1[0][i - 1]);
                    }
                }
            }
            assert forall|i: int| 0 <= i < gaps.len() implies blank(#[trigger] gaps[i]) by {
                if i > 0 {
                    assert(gaps[i] == g1[i]);
                }
            }
            gaps
        } else if c == '{' || c == '}' {
            let t = if c == '{' {
                (VdfTokenType::BraceStart, "{"@)
            } else {
                (VdfTokenType::BraceEnd, "}"@)
            };
            let rest = lex(s.drop_first(), pos + 1);
            assert(rest is Ok);
            let ts1 = rest->Ok_0;
            assert(ts == seq![t] + ts1);
            let g1 = lemma_lex_layout(s.drop_first(), pos + 1);
            let gaps = seq![Seq::<char>::empty()] + g1;
            assert(ts.drop_first() =~= ts1);
            assert(gaps.drop_first() =~= g1);
            assert(token_text(ts[0]) =~= seq![c]);
            assert(s =~= gaps[0] + token_text(ts[0]) + s.drop_first());
            assert(blank(gaps[0]));
            assert forall|i: int| 0 <= i < gaps.len() implies blank(#[trigger] gaps[i]) by {
                if i > 0 {
                    assert(gaps[i] == g1[i - 1]);
                }
            }
            assert forall|i: int| 0 <= i < ts.len() implies token_renderable(#[trigger] ts[i]) by {
                if i > 0 {
                    assert(ts[i] == ts1[i - 1]);
                }
            }
            gaps
        } else {
            assert(c == '"');
            lemma_find_quote(s.drop_first());
            let k = find_quote(s.drop_first())->0;
            let v = s.subrange(1, k + 1);
            let t = (VdfTokenType::String, v);
            let np = pos + utf8_len(s.take(k + 2));
            let rest = lex(s.skip(k + 2), np);
            assert(rest is Ok);
            let ts1 = rest->Ok_0;
            assert(ts == seq![t] + ts1);
            let g1 = lemma_lex_layout(s.skip(k + 2), np);
            let gaps = seq![Seq::<char>::empty()] + g1;
            assert(ts.drop_first() =~= ts1);
            assert(gaps.drop_first() =~= g1);
            assert forall|j: int| 0 <= j < v.len() implies v[j] != '"' by {
                assert(v[j] == s.drop_first()[j]);
            }
            assert(s[k + 1] == s.drop_first()[k]);
            assert(s =~= gaps[0] + token_text(ts[0]) + s.skip(k + 2));
            assert(blank(gaps[0]));
            assert forall|i: int| 0 <= i < gaps.len() implies blank(#[trigger] gaps[i]) by {
                if i > 0 {
                    assert(gaps[i] == g1[i - 1]);
                }
            }
            assert forall|i: int| 0 <= i < ts.len() implies token_renderable(#[trigger] ts[i]) by {
                if i > 0 {
                    assert(ts[i] == ts1[i - 1]);
                }
            }
            gaps
        }
    }
}

/// Whitespace between, before and after tokens does not change what text
/// parses to: writing the tokens of `a` with any other whitespace runs, or
/// none, around and between them gives text that parses as `a` does.
pub proof fn lemma_parse_ignores_layout(a: Seq<char>, gaps: Seq<Seq<char>>)
    requires
        lex(a, 0) is Ok,
        blank_gaps(gaps, lex(a, 0)->Ok_0.len()),
    ensures
        vdf_parse(render_spaced(lex(a, 0)->Ok_0, gaps)) == vdf_parse(a),
{
    let ts = lex(a, 0)->Ok_0;
    let _ = lemma_lex_layout(a, 0);
    lemma_lex_spaced(ts, gaps, 0);
}

/// Tokens written with single spaces between them read back.
pub proof fn lemma_lex_space_joined(ts: Seq<(VdfTokenType, Seq<char>)>)
    requires
        tokens_renderable(ts),
    ensures
        lex(render_spaced(ts, space_gaps(ts.len())), 0) == Ok::<Seq<(VdfTokenType, Seq<char>)>, Seq<char>>(ts),
{
    let gaps = space_gaps(ts.len());
    assert forall|i: int| 0 <= i < gaps.len() implies blank(#[trigger] gaps[i]) by {
        if 0 < i < ts.len() {
            assert(gaps[i] =~= seq![' ']);
            assert(is_unicode_whitespace(' '));
        } else {
            assert(gaps[i] =~= Seq::<char>::empty());
        }
    }
    lemma_lex_spaced(ts, gaps, 0);
}

/// The gaps of `n` tokens joined by single spaces: nothing before the first
/// or after the last.
pub open spec fn space_gaps(n: nat) -> Seq<Seq<char>> {
    Seq::new(n + 1, |i: int| if 0 < i < n { seq![' '] } else { Seq::<char>::empty() })
}

} // verus!
