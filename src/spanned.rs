//! The span of the complete contents of a syntax tree node that can be
//! written out as tokens.

use crate::resolve::{any_join, lemma_resolves_to_weaken, resolve_locations, resolves_to, SpanJoining};
use proc_macro2::{Span, TokenStream, TokenTree};
use quote::ToTokens;
use vstd::prelude::*;

verus! {

#[verifier::external_type_specification]
#[verifier::external_body]
pub struct ExSpan(Span);

#[verifier::external_type_specification]
#[verifier::external_body]
pub struct ExTokenStream(TokenStream);

#[verifier::external_type_specification]
#[verifier::external_body]
pub struct ExTokenTree(TokenTree);

/// Relies on `proc_macro2::Span::call_site`: the span of the current macro
/// invocation, which the host sets; nothing is promised of its value.
pub assume_specification[ Span::call_site ]() -> Span;

/// Relies on `proc_macro2::Span::join`: a span covering both, or `None`
/// where the two cannot be joined. Whether they can depends on the host, so
/// nothing is promised of the outcome.
pub assume_specification[ Span::join ](span: &Span, other: Span) -> Option<Span>;

/// Relies on `quote::ToTokens::to_token_stream`: the tokens that `node`
/// writes into a fresh, empty stream.
#[verifier::external_body]
fn node_tokens<T: ToTokens>(node: &T) -> TokenStream {
    node.to_token_stream()
}

/// The span that a token tree carries.
pub uninterp spec fn tree_span(tree: TokenTree) -> Span;

/// The top-level token trees of a stream, in order.
pub uninterp spec fn stream_trees(tokens: TokenStream) -> Seq<TokenTree>;

/// The spans of the top-level token trees of `tokens`, in order.
pub open spec fn stream_spans(tokens: TokenStream) -> Seq<Span> {
    stream_trees(tokens).map_values(|t: TokenTree| tree_span(t))
}

/// Relies on `proc_macro2::TokenTree::span`: the span that the token tree
/// carries, which depends on the tree alone.
pub assume_specification[ TokenTree::span ](tree: &TokenTree) -> (r: Span)
    ensures
        r == tree_span(*tree),
;

/// Relies on `proc_macro2::TokenStream`'s `IntoIterator`: the top-level token
/// trees of the stream, in order, which depend on the stream alone.
#[verifier::external_body]
fn token_trees(tokens: TokenStream) -> (r: Vec<TokenTree>)
    ensures
        r@ == stream_trees(tokens),
{
    tokens.into_iter().collect()
}

/// The span of each token tree, in order.
fn tree_spans(trees: &Vec<TokenTree>) -> (r: Vec<Span>)
    ensures
        r@ == trees@.map_values(|t: TokenTree| tree_span(t)),
{
    let mut spans: Vec<Span> = Vec::new();
    let mut i: usize = 0;
    while i < trees.len()
        invariant
            i <= trees@.len(),
            spans@ == trees@.subrange(0, i as int).map_values(|t: TokenTree| tree_span(t)),
        decreases trees@.len() - i,
    {
        proof {
            assert(trees@.subrange(0, i + 1).map_values(|t: TokenTree| tree_span(t))
                =~= trees@.subrange(0, i as int).map_values(|t: TokenTree| tree_span(t)).push(
                tree_span(trees@[i as int]),
            ));
        }
        spans.push(trees[i].span());
        i = i + 1;
    }
    assert(trees@.subrange(0, i as int) =~= trees@);
    spans
}

/// Resolves the spans of a token sequence to one span, joining them with
/// `Span::join` when `joining` is on.
///
/// An empty sequence yields `call_site`; with joining off, or with one token, the
/// result is the first span. With joining on and two spans or more, nothing
/// fixes the result here: what `Span::join` returns depends on the host, so the
/// result is what folding the later spans onto the first gives for some
/// outcome of each join. `resolve_locations` states the fold exactly for a
/// join whose outcome is known.
pub fn resolve_spans(spans: &Vec<Span>, call_site: Span, joining: SpanJoining) -> (r: Span)
    ensures
        spans@.len() == 0 ==> r == call_site,
        spans@.len() > 0 && joining == SpanJoining::Off ==> r == spans@[0],
        spans@.len() == 1 ==> r == spans@[0],
        resolves_to(spans@, call_site, joining, any_join(), r),
{
    let join = |a: Span, b: Span| a.join(b);
    let r = resolve_locations(spans, call_site, joining, join);
    proof {
        lemma_resolves_to_weaken(
            spans@,
            call_site,
            joining,
            |a: Span, b: Span, o: Option<Span>| join.ensures((a, b), o),
            any_join(),
            r,
        );
    }
    r
}

/// Resolves the spans of the top-level token trees of `tokens`, as
/// `resolve_spans` does.
pub fn span_of_tokens(tokens: TokenStream, call_site: Span, joining: SpanJoining) -> (r: Span)
    ensures
        stream_spans(tokens).len() == 0 ==> r == call_site,
        stream_spans(tokens).len() > 0 && joining == SpanJoining::Off ==> r == stream_spans(
            tokens,
        )[0],
        stream_spans(tokens).len() == 1 ==> r == stream_spans(tokens)[0],
        resolves_to(
            stream_spans(tokens),
            call_site,
            joining,
            any_join(),
            r,
        ),
{
    let trees = token_trees(tokens);
    let spans = tree_spans(&trees);
    resolve_spans(&spans, call_site, joining)
}

/// A span covering the complete contents of `node`, or `Span::call_site()`
/// where the node writes no tokens, with the spans of its tokens joined as
/// `joining` says. With joining off, a node of several tokens gets the span of
/// its first. The result is that of `span_of_tokens` on the tokens that `node`
/// writes and on the current call site.
pub fn span_of<T: ToTokens>(node: &T, joining: SpanJoining) -> (r: Span)
    ensures
        exists|tokens: TokenStream, call_site: Span|
            #[trigger] resolves_to(
                stream_spans(tokens),
                call_site,
                joining,
                any_join(),
                r,
            ) && (stream_spans(tokens).len() == 0 ==> r == call_site) && (stream_spans(
                tokens,
            ).len() > 0 && joining == SpanJoining::Off ==> r == stream_spans(tokens)[0]),
{
    let tokens = node_tokens(node);
    let ghost stream = tokens;
    let call_site = Span::call_site();
    let r = span_of_tokens(tokens, call_site, joining);
    assert(resolves_to(
        stream_spans(stream),
        call_site,
        joining,
        any_join(),
        r,
    ));
    r
}

} // verus!
