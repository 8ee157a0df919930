//! Tokens as text.

use tokenizers::decoders::DecoderWrapper;
use tokenizers::models::ModelWrapper;
use tokenizers::normalizers::NormalizerWrapper;
use tokenizers::pre_tokenizers::PreTokenizerWrapper;
use tokenizers::processors::PostProcessorWrapper;
use tokenizers::{Decoder, TokenizerImpl};
use vstd::prelude::*;

verus! {

/// `ModelWrapper` of `tokenizers`, what a tokenizer splits words with. Nothing is seen of it here.
#[verifier::external_type_specification]
#[verifier::external_body]
pub struct ExModelWrapper(ModelWrapper);

/// `NormalizerWrapper` of `tokenizers`, what a tokenizer prepares text with. Nothing is seen of it here.
#[verifier::external_type_specification]
#[verifier::external_body]
pub struct ExNormalizerWrapper(NormalizerWrapper);

/// `PreTokenizerWrapper` of `tokenizers`, what a tokenizer splits text with. Nothing is seen of it here.
#[verifier::external_type_specification]
#[verifier::external_body]
pub struct ExPreTokenizerWrapper(PreTokenizerWrapper);

/// `PostProcessorWrapper` of `tokenizers`, what a tokenizer adds to tokens. Nothing is seen of it here.
#[verifier::external_type_specification]
#[verifier::external_body]
pub struct ExPostProcessorWrapper(PostProcessorWrapper);

/// `DecoderWrapper` of `tokenizers`, what a tokenizer makes text of tokens with. Nothing is seen of it here.
#[verifier::external_type_specification]
#[verifier::external_body]
pub struct ExDecoderWrapper(DecoderWrapper);

/// `tokenizers::TokenizerImpl`, of which nothing is seen here.
#[verifier::external_type_specification]
#[verifier::external_body]
#[verifier::reject_recursive_types(M)]
#[verifier::reject_recursive_types(N)]
#[verifier::reject_recursive_types(PT)]
#[verifier::reject_recursive_types(PP)]
#[verifier::reject_recursive_types(D)]
pub struct ExTokenizerImpl<M, N, PT, PP, D>(TokenizerImpl<M, N, PT, PP, D>);

/// A tokenizer, as a `tokenizers::Tokenizer` holds it and gives it out by reference.
pub type Tokenizer = TokenizerImpl<
    ModelWrapper,
    NormalizerWrapper,
    PreTokenizerWrapper,
    PostProcessorWrapper,
    DecoderWrapper,
>;

/// What a decoder is made of, as far as it matters to whether it can be run.
pub enum DecoderForm {
    /// Joins words, told apart by a suffix.
    Bpe,
    /// Reads the characters of tokens as bytes.
    ByteLevel,
    /// Joins words, told apart by a prefix.
    WordPiece,
    /// Puts spaces where another character stands for them.
    Metaspace,
    /// Leaves out what is repeated or stands for nothing.
    Ctc,
    /// One decoder after the other: the decoders and what they are made of.
    Sequence(Seq<DecoderWrapper>, Seq<DecoderForm>),
    /// Replaces a pattern.
    Replace,
    /// Joins all tokens.
    Fuse,
    /// Takes a character off a token: so many at its start, and so many at its end.
    Strip(char, usize, usize),
    /// Reads tokens that stand for bytes.
    ByteFallback,
}

/// The kind of a decoder.
#[derive(Clone, Copy, Debug)]
pub enum DecoderKind {
    /// Joins words, told apart by a suffix.
    Bpe,
    /// Reads the characters of tokens as bytes.
    ByteLevel,
    /// Joins words, told apart by a prefix.
    WordPiece,
    /// Puts spaces where another character stands for them.
    Metaspace,
    /// Leaves out what is repeated or stands for nothing.
    Ctc,
    /// One decoder after the other.
    Sequence,
    /// Replaces a pattern.
    Replace,
    /// Joins all tokens.
    Fuse,
    /// Takes a character off a token: so many at its start, and so many at its end.
    Strip(char, usize, usize),
    /// Reads tokens that stand for bytes.
    ByteFallback,
}

/// The kind of a decoder of the form.
pub open spec fn kind_of(form: DecoderForm) -> DecoderKind {
    match form {
        DecoderForm::Bpe => DecoderKind::Bpe,
        DecoderForm::ByteLevel => DecoderKind::ByteLevel,
        DecoderForm::WordPiece => DecoderKind::WordPiece,
        DecoderForm::Metaspace => DecoderKind::Metaspace,
        DecoderForm::Ctc => DecoderKind::Ctc,
        DecoderForm::Sequence(_, _) => DecoderKind::Sequence,
        DecoderForm::Replace => DecoderKind::Replace,
        DecoderForm::Fuse => DecoderKind::Fuse,
        DecoderForm::Strip(content, start, stop) => DecoderKind::Strip(content, start, stop),
        DecoderForm::ByteFallback => DecoderKind::ByteFallback,
    }
}

/// The token with an id, if there is one.
pub uninterp spec fn token_of(tokenizer: Tokenizer, id: u32) -> Option<Seq<char>>;

/// Whether a token is special.
pub uninterp spec fn token_is_special(tokenizer: Tokenizer, token: Seq<char>) -> bool;

/// The decoder of the tokenizer, if it has one.
pub uninterp spec fn decoder_of(tokenizer: Tokenizer) -> Option<DecoderWrapper>;

/// What the decoder is made of.
pub uninterp spec fn form_of(decoder: DecoderWrapper) -> DecoderForm;

/// What the decoder makes of tokens.
pub uninterp spec fn chained(decoder: DecoderWrapper, tokens: Seq<Seq<char>>) -> Seq<Seq<char>>;

/// What strings hold.
pub open spec fn texts(strings: Seq<String>) -> Seq<Seq<char>> {
    strings.map_values(|s: String| s@)
}

/// The texts, one behind the other, with `gap` between them.
pub open spec fn joined(texts: Seq<Seq<char>>, gap: Seq<char>) -> Seq<char>
    decreases texts.len(),
{
    if texts.len() == 0 {
        Seq::empty()
    } else if texts.len() == 1 {
        texts[0]
    } else {
        joined(texts.drop_last(), gap) + gap + texts.last()
    }
}

/// Whether the id is that of a token that becomes text.
pub open spec fn keeps(tokenizer: Tokenizer, id: u32, skip_special_tokens: bool) -> bool {
    match token_of(tokenizer, id) {
        Some(token) => !skip_special_tokens || !token_is_special(tokenizer, token),
        None => false,
    }
}

/// The tokens with the ids, without those that there are not, and without the special ones if
/// `skip_special_tokens` says so.
pub open spec fn kept_tokens(
    tokenizer: Tokenizer,
    ids: Seq<u32>,
    skip_special_tokens: bool,
) -> Seq<Seq<char>>
    decreases ids.len(),
{
    if ids.len() == 0 {
        Seq::empty()
    } else {
        let before = kept_tokens(tokenizer, ids.drop_last(), skip_special_tokens);
        if keeps(tokenizer, ids.last(), skip_special_tokens) {
            before.push(token_of(tokenizer, ids.last())->0)
        } else {
            before
        }
    }
}

/// Whether a character can be taken off a token, `start` times at its start and `stop` times at its
/// end: a token of nothing else must be long enough.
pub open spec fn strippable(token: Seq<char>, content: char, start: usize, stop: usize) -> bool {
    (forall|k: int| 0 <= k < token.len() ==> token[k] == content) ==> (if start < token.len() {
        start as int
    } else {
        token.len() as int
    }) + stop <= token.len()
}

/// Whether a decoder of the form can be run on tokens. A pattern to replace is not seen here, and
/// the search for some patterns never ends or breaks off, so it must have nothing to search.
pub open spec fn form_runs(form: DecoderForm, tokens: Seq<Seq<char>>) -> bool
    decreases form,
{
    match form {
        DecoderForm::Bpe => tokens.len() > 0,
        DecoderForm::Strip(content, start, stop) => forall|i: int|
            0 <= i < tokens.len() ==> strippable(#[trigger] tokens[i], content, start, stop),
        DecoderForm::Sequence(decoders, forms) => forms_run(decoders, forms, tokens),
        DecoderForm::Replace => forall|i: int|
            0 <= i < tokens.len() ==> (#[trigger] tokens[i]).len() == 0,
        DecoderForm::ByteLevel => true,
        DecoderForm::WordPiece => true,
        DecoderForm::Metaspace => true,
        DecoderForm::Ctc => true,
        DecoderForm::Fuse => true,
        DecoderForm::ByteFallback => true,
    }
}

/// Whether decoders of the forms can be run one after the other, the first on tokens, and the
/// others each on what the one before it makes.
pub open spec fn forms_run(
    decoders: Seq<DecoderWrapper>,
    forms: Seq<DecoderForm>,
    tokens: Seq<Seq<char>>,
) -> bool
    decreases forms,
{
    forms.len() > 0 ==> form_runs(forms[0], tokens) && forms_run(
        decoders.subrange(1, decoders.len() as int),
        forms.subrange(1, forms.len() as int),
        chained(decoders[0], tokens),
    )
}

/// Whether the ids can be made text.
pub open spec fn decodes(tokenizer: Tokenizer, ids: Seq<u32>, skip_special_tokens: bool) -> bool {
    match decoder_of(tokenizer) {
        Some(decoder) => form_runs(
            form_of(decoder),
            kept_tokens(tokenizer, ids, skip_special_tokens),
        ),
        None => true,
    }
}

/// The text of token ids: what the decoder makes of the tokens, or without a decoder the tokens
/// with spaces between them.
pub open spec fn decoded(
    tokenizer: Tokenizer,
    ids: Seq<u32>,
    skip_special_tokens: bool,
) -> Seq<char> {
    let tokens = kept_tokens(tokenizer, ids, skip_special_tokens);
    match decoder_of(tokenizer) {
        Some(decoder) => joined(chained(decoder, tokens), Seq::empty()),
        None => joined(tokens, seq![' ']),
    }
}

/// Calls `tokenizers::TokenizerImpl::id_to_token`. Claimed: the token, or that there is none,
/// depends on the tokenizer and the id alone.
#[verifier::external_body]
fn id_to_token(tokenizer: &Tokenizer, id: u32) -> (r: Option<String>)
    ensures
        match r {
            Some(token) => token_of(*tokenizer, id) == Some(token@),
            None => token_of(*tokenizer, id) is None,
        },
{
    tokenizer.id_to_token(id)
}

/// Calls `tokenizers::AddedVocabulary::is_special_token` on what the tokenizer gives out. Claimed:
/// the answer depends on the tokenizer and the token alone.
#[verifier::external_body]
fn is_special_token(tokenizer: &Tokenizer, token: &str) -> (r: bool)
    ensures
        r == token_is_special(*tokenizer, token@),
{
    tokenizer.get_added_vocabulary().is_special_token(token)
}

/// Calls `tokenizers::TokenizerImpl::get_decoder`. Claimed: the result is the decoder of the
/// tokenizer, or that it has none.
#[verifier::external_body]
fn get_decoder(tokenizer: &Tokenizer) -> (r: Option<&DecoderWrapper>)
    ensures
        match r {
            Some(decoder) => decoder_of(*tokenizer) == Some(*decoder),
            None => decoder_of(*tokenizer) is None,
        },
{
    tokenizer.get_decoder()
}

/// Tells the variants of `tokenizers::decoders::DecoderWrapper` apart. Claimed: the result is the
/// kind that goes with what the decoder is made of, with the fields of a `Strip`.
#[verifier::external_body]
fn decoder_kind(decoder: &DecoderWrapper) -> (r: DecoderKind)
    ensures
        r == kind_of(form_of(*decoder)),
{
    match decoder {
        DecoderWrapper::BPE(_) => DecoderKind::Bpe,
        DecoderWrapper::ByteLevel(_) => DecoderKind::ByteLevel,
        DecoderWrapper::WordPiece(_) => DecoderKind::WordPiece,
        DecoderWrapper::Metaspace(_) => DecoderKind::Metaspace,
        DecoderWrapper::CTC(_) => DecoderKind::Ctc,
        DecoderWrapper::Sequence(_) => DecoderKind::Sequence,
        DecoderWrapper::Replace(_) => DecoderKind::Replace,
        DecoderWrapper::Fuse(_) => DecoderKind::Fuse,
        DecoderWrapper::Strip(s) => DecoderKind::Strip(s.content, s.start, s.stop),
        DecoderWrapper::ByteFallback(_) => DecoderKind::ByteFallback,
    }
}

/// Calls `tokenizers::decoders::sequence::Sequence::get_decoders`. Claimed: the decoder is made of
/// those in the result, in their order, and of what they are made of.
#[verifier::external_body]
fn get_decoders(decoder: &DecoderWrapper) -> (r: &[DecoderWrapper])
    requires
        form_of(*decoder) is Sequence,
    ensures
        form_of(*decoder) == DecoderForm::Sequence(
            r@,
            r@.map_values(|d: DecoderWrapper| form_of(d)),
        ),
{
    match decoder {
        DecoderWrapper::Sequence(sequence) => sequence.get_decoders(),
        _ => &[],
    }
}

/// Calls `tokenizers::Decoder::decode_chain`. Claimed: what is made of the tokens depends on the
/// decoder and the tokens alone, and the call never fails. It may panic on no tokens for
/// `BPEDecoder`, and on a token of nothing but its character for `Strip`. For `Replace` it may
/// panic or never return, since a match of some patterns starts before the one before it ends.
/// Its pattern is private, so nothing is said of which ones it is safe with. On an empty token it
/// does not search at all.
#[verifier::external_body]
fn decode_chain(decoder: &DecoderWrapper, tokens: &Vec<String>) -> (r: Vec<String>)
    requires
        form_runs(form_of(*decoder), texts(tokens@)),
    ensures
        texts(r@) == chained(*decoder, texts(tokens@)),
{
    decoder.decode_chain(tokens.clone()).unwrap()
}

/// Calls `tokenizers::TokenizerImpl::decode`. Claimed: the text is what the decoder makes of the
/// tokens that are kept, or those tokens with spaces between them, and the call never fails. It
/// may panic or never return where the decoder does.
#[verifier::external_body]
fn decode(tokenizer: &Tokenizer, ids: &[u32], skip_special_tokens: bool) -> (text: String)
    requires
        decodes(*tokenizer, ids@, skip_special_tokens),
    ensures
        text@ == decoded(*tokenizer, ids@, skip_special_tokens),
{
    tokenizer.decode(ids, skip_special_tokens).unwrap()
}

/// The tokens with the ids that become text.
fn keep_tokens(tokenizer: &Tokenizer, ids: &[u32], skip_special_tokens: bool) -> (r: Vec<String>)
    ensures
        texts(r@) == kept_tokens(*tokenizer, ids@, skip_special_tokens),
{
    let mut kept: Vec<String> = Vec::new();
    assert(texts(kept@) =~= Seq::empty());
    for i in 0..ids.len()
        invariant
            texts(kept@) == kept_tokens(*tokenizer, ids@.take(i as int), skip_special_tokens),
    {
        assert(ids@.take(i + 1).drop_last() =~= ids@.take(i as int));
        if let Some(token) = id_to_token(tokenizer, ids[i]) {
            if !skip_special_tokens || !is_special_token(tokenizer, token.as_str()) {
                let ghost before = kept@;
                kept.push(token);
                assert(texts(kept@) =~= texts(before).push(token@));
            }
        }
    }
    assert(ids@.take(ids.len() as int) =~= ids@);
    kept
}

/// Whether the character can be taken off the token.
fn is_strippable(token: &String, content: char, start: usize, stop: usize) -> (r: bool)
    ensures
        r == strippable(token@, content, start, stop),
{
    let text = token.as_str();
    let n: usize = text.unicode_len();
    for k in 0..n
        invariant
            n == token@.len(),
            text@ == token@,
            forall|j: int| 0 <= j < k ==> token@[j] == content,
    {
        if text.get_char(k) != content {
            return true;
        }
    }
    let cut: usize = if start < n {
        start
    } else {
        n
    };
    stop <= n - cut
}

/// Whether the decoder can be run on the tokens.
fn decoder_runs(decoder: &DecoderWrapper, tokens: &Vec<String>) -> (r: bool)
    ensures
        r == form_runs(form_of(*decoder), texts(tokens@)),
    decreases form_of(*decoder),
{
    match decoder_kind(decoder) {
        DecoderKind::Bpe => tokens.len() > 0,
        DecoderKind::Strip(content, start, stop) => {
            for i in 0..tokens.len()
                invariant
                    form_of(*decoder) == DecoderForm::Strip(content, start, stop),
                    forall|j: int|
                        0 <= j < i ==> strippable(
                            #[trigger] texts(tokens@)[j],
                            content,
                            start,
                            stop,
                        ),
            {
                if !is_strippable(&tokens[i], content, start, stop) {
                    assert(!strippable(texts(tokens@)[i as int], content, start, stop));
                    return false;
                }
            }
            true
        },
        DecoderKind::Sequence => {
            let decoders = get_decoders(decoder);
            let ghost forms = decoders@.map_values(|d: DecoderWrapper| form_of(d));
            assert(decoders@.skip(0) =~= decoders@);
            assert(forms.skip(0) =~= forms);
            assert(decreases_to!(form_of(*decoder) => form_of(*decoder)->Sequence_1));
            decoders_run(decoders, 0, tokens)
        },
        DecoderKind::Replace => {
            for i in 0..tokens.len()
                invariant
                    form_of(*decoder) is Replace,
                    forall|j: int| 0 <= j < i ==> (#[trigger] texts(tokens@)[j]).len() == 0,
            {
                if tokens[i].as_str().unicode_len() > 0 {
                    assert(texts(tokens@)[i as int].len() > 0);
                    return false;
                }
            }
            true
        },
        DecoderKind::ByteLevel => true,
        DecoderKind::WordPiece => true,
        DecoderKind::Metaspace => true,
        DecoderKind::Ctc => true,
        DecoderKind::Fuse => true,
        DecoderKind::ByteFallback => true,
    }
}

/// Whether the decoders from `first` on can be run one after the other.
fn decoders_run(decoders: &[DecoderWrapper], first: usize, tokens: &Vec<String>) -> (r: bool)
    requires
        first <= decoders.len(),
    ensures
        r == forms_run(
            decoders@.skip(first as int),
            decoders@.map_values(|d: DecoderWrapper| form_of(d)).skip(first as int),
            texts(tokens@),
        ),
    decreases decoders@.map_values(|d: DecoderWrapper| form_of(d)).skip(first as int),
{
    if first == decoders.len() {
        return true;
    }
    let ghost forms = decoders@.map_values(|d: DecoderWrapper| form_of(d));
    let ghost rest = forms.skip(first as int);
    assert(rest[0] == form_of(decoders@[first as int]));
    if !decoder_runs(&decoders[first], tokens) {
        return false;
    }
    let next = decode_chain(&decoders[first], tokens);
    proof {
        let n = decoders.len() - first;
        assert(decoders@.skip(first as int).subrange(1, n) =~= decoders@.skip(first + 1));
        assert(rest.subrange(1, n) =~= forms.skip(first + 1));
    }
    decoders_run(decoders, first + 1, &next)
}

/// The text of tokens, without the special ones.
pub fn decode_tokens(tokenizer: &Tokenizer, tokens: &[u32]) -> (text: String)
    requires
        decodes(*tokenizer, tokens@, true),
    ensures
        text@ == decoded(*tokenizer, tokens@, true),
{
    decode(tokenizer, tokens, true)
}

/// The text of tokens, without the special ones, unless the decoder cannot be run on them.
pub fn try_decode_tokens(tokenizer: &Tokenizer, tokens: &[u32]) -> (r: Option<String>)
    ensures
        match r {
            Some(text) => {
                &&& decodes(*tokenizer, tokens@, true)
                &&& text@ == decoded(*tokenizer, tokens@, true)
            },
            None => !decodes(*tokenizer, tokens@, true),
        },
{
    if let Some(decoder) = get_decoder(tokenizer) {
        let kept = keep_tokens(tokenizer, tokens, true);
        if !decoder_runs(decoder, &kept) {
            return None;
        }
    }
    Some(decode_tokens(tokenizer, tokens))
}

} // verus!
