//! Recovery of the spans that tokens have in the text they were made from.
//!
//! The tokens are laid end to end, which gives each a span of its own in the
//! text so joined. That text is then aligned with the original text,
//! character by character, and each token's span is projected through the
//! alignment.
use vstd::prelude::*;
use vstd::string::StrSliceExecFns;
use vstd::string::StringExecFns;
use crate::project::align_spans_by_mapping;
use crate::project::identity_map;
use crate::project::lemma_empty_span_projects_to_nothing;
use crate::project::lemma_identity_projection;
use crate::project::offsets;
use crate::project::offsets_have_successors;
use crate::project::projected;
use crate::Span;

verus! {

/// The characters of each token.
pub open spec fn token_chars(tokens: Seq<&str>) -> Seq<Seq<char>> {
    tokens.map_values(|token: &str| token@)
}

/// The number of characters in the first `k` tokens.
pub open spec fn chars_before(tokens: Seq<Seq<char>>, k: int) -> nat
    decreases k,
{
    if k <= 0 {
        0
    } else {
        chars_before(tokens, k - 1) + tokens[k - 1].len()
    }
}

/// The span that token `k` has in the text made of the tokens laid end to
/// end.
pub open spec fn implicit_span(tokens: Seq<Seq<char>>, k: int) -> Span {
    (chars_before(tokens, k) as usize, chars_before(tokens, k + 1) as usize)
}

/// The character correspondence that the alignment of `text` with `original`
/// finds: for each position of `text`, the positions of `original` that it
/// corresponds to.
pub uninterp spec fn charmap(text: Seq<char>, original: Seq<char>) -> Seq<Seq<usize>>;

/// The number of characters grows with the number of tokens.
pub proof fn lemma_chars_before_grows(tokens: Seq<Seq<char>>, j: int, k: int)
    requires
        0 <= j <= k,
    ensures
        chars_before(tokens, j) <= chars_before(tokens, k),
    decreases k - j,
{
    if j < k {
        lemma_chars_before_grows(tokens, j, k - 1);
    }
}

/// The first `k` tokens laid end to end have `chars_before(tokens, k)`
/// characters.
pub proof fn lemma_joined_len(tokens: Seq<Seq<char>>, k: int)
    requires
        0 <= k <= tokens.len(),
    ensures
        tokens.take(k).flatten().len() == chars_before(tokens, k),
    decreases k,
{
    if k > 0 {
        lemma_joined_len(tokens, k - 1);
        assert(tokens.take(k) == tokens.take(k - 1).push(tokens[k - 1]));
        tokens.take(k - 1).lemma_flatten_push(tokens[k - 1]);
    }
}

/// Through the correspondence of the joined text with itself every token
/// that has characters is projected onto one run, its own span, and every
/// token without characters onto none.
pub proof fn lemma_round_trip(tokens: Seq<Seq<char>>, k: int)
    requires
        0 <= k < tokens.len(),
        tokens.flatten().len() <= usize::MAX,
    ensures
        projected(implicit_span(tokens, k), identity_map(tokens.flatten().len())) == if tokens[k].len()
            > 0 {
            seq![implicit_span(tokens, k)]
        } else {
            Seq::<Span>::empty()
        },
{
    let n = tokens.len() as int;
    assert(tokens.take(n) == tokens);
    lemma_joined_len(tokens, n);
    lemma_chars_before_grows(tokens, k + 1, n);
    lemma_chars_before_grows(tokens, k, k + 1);
    let span = implicit_span(tokens, k);
    if tokens[k].len() > 0 {
        lemma_identity_projection(span, tokens.flatten().len());
    } else {
        lemma_empty_span_projects_to_nothing(span, identity_map(tokens.flatten().len()));
    }
}

/// The spans that the tokens have in the text made of them laid end to end:
/// each token begins where the one before it ends, the first at 0.
pub fn get_span_indices(tokens: &[&str]) -> (res: Vec<Span>)
    requires
        chars_before(token_chars(tokens@), tokens@.len() as int) <= usize::MAX,
    ensures
        res@.len() == tokens@.len(),
        forall|k: int|
            0 <= k < tokens@.len() ==> #[trigger] res@[k] == implicit_span(token_chars(tokens@), k),
{
    let ghost chars = token_chars(tokens@);
    let mut ret: Vec<Span> = Vec::new();
    let mut l: usize = 0;
    for k in 0..tokens.len()
        invariant
            chars == token_chars(tokens@),
            chars_before(chars, tokens@.len() as int) <= usize::MAX,
            l == chars_before(chars, k as int),
            ret@.len() == k,
            forall|j: int| 0 <= j < k ==> #[trigger] ret@[j] == implicit_span(chars, j),
    {
        let count = tokens[k].unicode_len();
        proof {
            assert(chars[k as int] == tokens@[k as int]@);
            lemma_chars_before_grows(chars, k + 1, tokens@.len() as int);
        }
        let r = l + count;
        ret.push((l, r));
        l = r;
    }
    ret
}

/// Aligns `text` with `original_text` by `get_charmap` of the crate
/// `tokenizations` and returns the first of its two correspondences, that
/// from the positions of `text` to those of `original_text`.
///
/// The correspondence is named, not described. Two things are stated of it.
/// Every offset in it is a position of `original_text`: the crate fills it
/// with indices of that text's characters. And a text aligned with itself
/// gives the identity: both sides are normalised alike, the comparison pairs
/// equal sequences position by position, and each character is then mapped
/// to its own index, once.
#[verifier::external_body]
fn char_correspondence(text: &str, original_text: &str) -> (mapping: Vec<Vec<usize>>)
    ensures
        offsets(mapping@) == charmap(text@, original_text@),
        forall|i: int, j: int|
            0 <= i < mapping@.len() && 0 <= j < mapping@[i]@.len() ==> #[trigger] mapping@[i]@[j]
                < original_text@.len(),
        text@ == original_text@ ==> offsets(mapping@) == identity_map(text@.len()),
{
    tokenizations::get_charmap(text, original_text).0
}

/// Converts spans of `text` to spans of `original_text`: aligns the two
/// texts and projects each span through the correspondence found.
pub fn align_spans(spans: &[Span], text: &str, original_text: &str) -> (res: Vec<Vec<Span>>)
    ensures
        res@.len() == spans@.len(),
        forall|k: int|
            0 <= k < spans@.len() ==> (#[trigger] res@[k])@ == projected(
                spans@[k],
                charmap(text@, original_text@),
            ),
        text@ == original_text@ ==> charmap(text@, original_text@) == identity_map(text@.len()),
{
    let mapping = char_correspondence(text, original_text);
    // the count bounds every offset of the correspondence
    let bound = original_text.unicode_len();
    proof {
        let m = offsets(mapping@);
        assert forall|k: int| 0 <= k < spans@.len() implies offsets_have_successors(
            #[trigger] spans@[k],
            m,
        ) by {
            assert forall|i: int, j: int|
                0 <= i < m.len() && 0 <= j < m[i].len() implies #[trigger] m[i][j] < usize::MAX by {
                assert(mapping@[i]@[j] < bound);
            }
        }
    }
    align_spans_by_mapping(spans, mapping.as_slice())
}

/// Finds the spans of `original_text` that the tokens come from.
///
/// Token `k` has the span `implicit_span(.., k)` in the text made of the
/// tokens laid end to end; that span is projected through the alignment of
/// the joined text with `original_text`. Where the joined text is the
/// original text, a token with characters comes back as one run, its own
/// span, and a token without characters as no run.
pub fn get_original_spans(tokens: &[&str], original_text: &str) -> (res: Vec<Vec<Span>>)
    ensures
        res@.len() == tokens@.len(),
        forall|k: int|
            0 <= k < tokens@.len() ==> (#[trigger] res@[k])@ == projected(
                implicit_span(token_chars(tokens@), k),
                charmap(token_chars(tokens@).flatten(), original_text@),
            ),
        token_chars(tokens@).flatten() == original_text@ ==> forall|k: int|
            0 <= k < tokens@.len() ==> (#[trigger] res@[k])@ == if tokens@[k]@.len() > 0 {
                seq![implicit_span(token_chars(tokens@), k)]
            } else {
                Seq::<Span>::empty()
            },
{
    let ghost chars = token_chars(tokens@);
    let mut text = String::new();
    for k in 0..tokens.len()
        invariant
            chars == token_chars(tokens@),
            text@ == chars.take(k as int).flatten(),
    {
        text.append(tokens[k]);
        proof {
            assert(chars.take(k + 1) == chars.take(k as int).push(tokens@[k as int]@));
            chars.take(k as int).lemma_flatten_push(tokens@[k as int]@);
        }
    }
    // the count shows that the spans of the tokens fit the offsets' type
    let total = text.as_str().unicode_len();
    proof {
        assert(chars.take(tokens@.len() as int) == chars);
        lemma_joined_len(chars, tokens@.len() as int);
        assert(total == chars_before(chars, tokens@.len() as int));
    }
    let spans = get_span_indices(tokens);
    let res = align_spans(spans.as_slice(), text.as_str(), original_text);
    proof {
        if chars.flatten() == original_text@ {
            assert forall|k: int| 0 <= k < tokens@.len() implies (#[trigger] res@[k])@
                == if tokens@[k]@.len() > 0 {
                seq![implicit_span(chars, k)]
            } else {
                Seq::<Span>::empty()
            } by {
                lemma_round_trip(chars, k);
                assert(chars[k] == tokens@[k]@);
            }
        }
    }
    res
}

} // verus!
