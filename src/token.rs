use vstd::prelude::*;

use crate::search::SearchError;

verus! {

/// What `str::to_lowercase` makes of a text.
pub uninterp spec fn lowercase_of(s: Seq<char>) -> Seq<char>;

/// What the English Snowball stemmer makes of a word.
pub uninterp spec fn english_stem_of(s: Seq<char>) -> Seq<char>;

/// Relies on str::to_lowercase: the lowercase form of the text, which
/// depends on the text alone.
#[verifier::external_body]
fn to_lowercase(s: &str) -> (r: String)
    ensures
        r@ == lowercase_of(s@),
{
    s.to_lowercase()
}

/// Relies on rust_stemmers' English stemmer (Stemmer::create, Stemmer::stem):
/// the stem depends on the word alone.
#[verifier::external_body]
fn stem(word: &str) -> (r: String)
    ensures
        r@ == english_stem_of(word@),
{
    rust_stemmers::Stemmer::create(rust_stemmers::Algorithm::English).stem(word).into_owned()
}

/// tokenizers::Tokenizer, the sub-word model, carried through opaque.
#[verifier::external_type_specification]
#[verifier::external_body]
pub struct ExTokenizer(tokenizers::Tokenizer);

/// Whether a model splits words by WordPiece, as BERT's models do.
pub uninterp spec fn is_word_piece(model: tokenizers::Tokenizer) -> bool;

/// What a WordPiece model's Tokenizer::encode (without special tokens) makes
/// of a text: its pieces, or `None` when encoding fails.
pub uninterp spec fn wordpieces_of(model: tokenizers::Tokenizer, text: Seq<char>) -> Option<
    Seq<Seq<char>>,
>;

/// Relies on tokenizers' Tokenizer::get_model: whether the model is the
/// WordPiece variant of ModelWrapper.
#[verifier::external_body]
fn uses_word_piece(model: &tokenizers::Tokenizer) -> (r: bool)
    ensures
        r == is_word_piece(*model),
{
    matches!(model.get_model(), tokenizers::models::ModelWrapper::WordPiece(_))
}

/// Relies on tokenizers' Tokenizer::encode (without special tokens) and
/// Encoding::get_tokens: the pieces of the text, or the error's message.
/// A WordPiece model draws nothing at random, so the outcome depends on the
/// model and the text alone.
#[verifier::external_body]
fn encode_pieces(model: &tokenizers::Tokenizer, text: &str) -> (r: Result<Vec<String>, String>)
    requires
        is_word_piece(*model),
    ensures
        r is Ok <==> wordpieces_of(*model, text@) is Some,
        r matches Ok(v) ==> strs(v@) == wordpieces_of(*model, text@)->Some_0,
{
    match model.encode(text, false) {
        Ok(encoding) => Ok(encoding.get_tokens().to_vec()),
        Err(e) => Err(e.to_string()),
    }
}

/// Whether `w` is a common English function word or bare punctuation.
pub open spec fn is_stopword(w: Seq<char>) -> bool {
    ||| w == "i"@
    ||| w == "me"@
    ||| w == "my"@
    ||| w == "myself"@
    ||| w == "we"@
    ||| w == "our"@
    ||| w == "ours"@
    ||| w == "ourselves"@
    ||| w == "you"@
    ||| w == "your"@
    ||| w == "yours"@
    ||| w == "yourself"@
    ||| w == "yourselves"@
    ||| w == "he"@
    ||| w == "him"@
    ||| w == "his"@
    ||| w == "himself"@
    ||| w == "she"@
    ||| w == "her"@
    ||| w == "hers"@
    ||| w == "herself"@
    ||| w == "it"@
    ||| w == "its"@
    ||| w == "itself"@
    ||| w == "they"@
    ||| w == "them"@
    ||| w == "their"@
    ||| w == "theirs"@
    ||| w == "themselves"@
    ||| w == "what"@
    ||| w == "which"@
    ||| w == "who"@
    ||| w == "whom"@
    ||| w == "this"@
    ||| w == "that"@
    ||| w == "these"@
    ||| w == "those"@
    ||| w == "am"@
    ||| w == "is"@
    ||| w == "are"@
    ||| w == "was"@
    ||| w == "were"@
    ||| w == "be"@
    ||| w == "been"@
    ||| w == "being"@
    ||| w == "have"@
    ||| w == "has"@
    ||| w == "had"@
    ||| w == "having"@
    ||| w == "do"@
    ||| w == "does"@
    ||| w == "did"@
    ||| w == "doing"@
    ||| w == "a"@
    ||| w == "an"@
    ||| w == "the"@
    ||| w == "and"@
    ||| w == "but"@
    ||| w == "if"@
    ||| w == "or"@
    ||| w == "because"@
    ||| w == "as"@
    ||| w == "until"@
    ||| w == "while"@
    ||| w == "of"@
    ||| w == "at"@
    ||| w == "by"@
    ||| w == "for"@
    ||| w == "with"@
    ||| w == "about"@
    ||| w == "against"@
    ||| w == "between"@
    ||| w == "into"@
    ||| w == "through"@
    ||| w == "during"@
    ||| w == "before"@
    ||| w == "after"@
    ||| w == "above"@
    ||| w == "below"@
    ||| w == "to"@
    ||| w == "from"@
    ||| w == "up"@
    ||| w == "down"@
    ||| w == "in"@
    ||| w == "out"@
    ||| w == "on"@
    ||| w == "off"@
    ||| w == "over"@
    ||| w == "under"@
    ||| w == "again"@
    ||| w == "further"@
    ||| w == "then"@
    ||| w == "once"@
    ||| w == "here"@
    ||| w == "there"@
    ||| w == "when"@
    ||| w == "where"@
    ||| w == "why"@
    ||| w == "how"@
    ||| w == "all"@
    ||| w == "any"@
    ||| w == "both"@
    ||| w == "each"@
    ||| w == "few"@
    ||| w == "more"@
    ||| w == "most"@
    ||| w == "other"@
    ||| w == "some"@
    ||| w == "such"@
    ||| w == "no"@
    ||| w == "nor"@
    ||| w == "not"@
    ||| w == "only"@
    ||| w == "own"@
    ||| w == "same"@
    ||| w == "so"@
    ||| w == "than"@
    ||| w == "too"@
    ||| w == "very"@
    ||| w == "s"@
    ||| w == "t"@
    ||| w == "can"@
    ||| w == "will"@
    ||| w == "just"@
    ||| w == "don"@
    ||| w == "should"@
    ||| w == "now"@
    ||| w == "."@
    ||| w == ","@
    ||| w == ":"@
    ||| w == ";"@
    ||| w == "!"@
    ||| w == "?"@
}

fn same_str(a: &str, b: &str) -> (r: bool)
    ensures
        r == (a@ == b@),
{
    let n = a.unicode_len();
    if n != b.unicode_len() {
        return false;
    }
    let mut i: usize = 0;
    while i < n
        invariant
            i <= n,
            n == a@.len(),
            n == b@.len(),
            forall|k: int| 0 <= k < i ==> a@[k] == b@[k],
        decreases n - i,
    {
        if a.get_char(i) != b.get_char(i) {
            return false;
        }
        i += 1;
    }
    assert(a@ =~= b@);
    true
}

/// Whether the word is one that the index leaves out.
pub fn stopword(w: &str) -> (r: bool)
    ensures
        r == is_stopword(w@),
{
    same_str(w, "i")
        || same_str(w, "me")
        || same_str(w, "my")
        || same_str(w, "myself")
        || same_str(w, "we")
        || same_str(w, "our")
        || same_str(w, "ours")
        || same_str(w, "ourselves")
        || same_str(w, "you")
        || same_str(w, "your")
        || same_str(w, "yours")
        || same_str(w, "yourself")
        || same_str(w, "yourselves")
        || same_str(w, "he")
        || same_str(w, "him")
        || same_str(w, "his")
        || same_str(w, "himself")
        || same_str(w, "she")
        || same_str(w, "her")
        || same_str(w, "hers")
        || same_str(w, "herself")
        || same_str(w, "it")
        || same_str(w, "its")
        || same_str(w, "itself")
        || same_str(w, "they")
        || same_str(w, "them")
        || same_str(w, "their")
        || same_str(w, "theirs")
        || same_str(w, "themselves")
        || same_str(w, "what")
        || same_str(w, "which")
        || same_str(w, "who")
        || same_str(w, "whom")
        || same_str(w, "this")
        || same_str(w, "that")
        || same_str(w, "these")
        || same_str(w, "those")
        || same_str(w, "am")
        || same_str(w, "is")
        || same_str(w, "are")
        || same_str(w, "was")
        || same_str(w, "were")
        || same_str(w, "be")
        || same_str(w, "been")
        || same_str(w, "being")
        || same_str(w, "have")
        || same_str(w, "has")
        || same_str(w, "had")
        || same_str(w, "having")
        || same_str(w, "do")
        || same_str(w, "does")
        || same_str(w, "did")
        || same_str(w, "doing")
        || same_str(w, "a")
        || same_str(w, "an")
        || same_str(w, "the")
        || same_str(w, "and")
        || same_str(w, "but")
        || same_str(w, "if")
        || same_str(w, "or")
        || same_str(w, "because")
        || same_str(w, "as")
        || same_str(w, "until")
        || same_str(w, "while")
        || same_str(w, "of")
        || same_str(w, "at")
        || same_str(w, "by")
        || same_str(w, "for")
        || same_str(w, "with")
        || same_str(w, "about")
        || same_str(w, "against")
        || same_str(w, "between")
        || same_str(w, "into")
        || same_str(w, "through")
        || same_str(w, "during")
        || same_str(w, "before")
        || same_str(w, "after")
        || same_str(w, "above")
        || same_str(w, "below")
        || same_str(w, "to")
        || same_str(w, "from")
        || same_str(w, "up")
        || same_str(w, "down")
        || same_str(w, "in")
        || same_str(w, "out")
        || same_str(w, "on")
        || same_str(w, "off")
        || same_str(w, "over")
        || same_str(w, "under")
        || same_str(w, "again")
        || same_str(w, "further")
        || same_str(w, "then")
        || same_str(w, "once")
        || same_str(w, "here")
        || same_str(w, "there")
        || same_str(w, "when")
        || same_str(w, "where")
        || same_str(w, "why")
        || same_str(w, "how")
        || same_str(w, "all")
        || same_str(w, "any")
        || same_str(w, "both")
        || same_str(w, "each")
        || same_str(w, "few")
        || same_str(w, "more")
        || same_str(w, "most")
        || same_str(w, "other")
        || same_str(w, "some")
        || same_str(w, "such")
        || same_str(w, "no")
        || same_str(w, "nor")
        || same_str(w, "not")
        || same_str(w, "only")
        || same_str(w, "own")
        || same_str(w, "same")
        || same_str(w, "so")
        || same_str(w, "than")
        || same_str(w, "too")
        || same_str(w, "very")
        || same_str(w, "s")
        || same_str(w, "t")
        || same_str(w, "can")
        || same_str(w, "will")
        || same_str(w, "just")
        || same_str(w, "don")
        || same_str(w, "should")
        || same_str(w, "now")
        || same_str(w, ".")
        || same_str(w, ",")
        || same_str(w, ":")
        || same_str(w, ";")
        || same_str(w, "!")
        || same_str(w, "?")
}

/// The views of a list of strings.
pub open spec fn strs(v: Seq<String>) -> Seq<Seq<char>> {
    v.map_values(|s: String| s@)
}

/// A piece that continues the word before it, marked by a leading `##`.
pub open spec fn is_continuation(p: Seq<char>) -> bool {
    p.len() >= 2 && p[0] == '#' && p[1] == '#'
}

/// The pieces with every continuation joined, without its marker, onto the
/// word before it (or standing alone when nothing comes before it).
pub open spec fn combined(s: Seq<Seq<char>>) -> Seq<Seq<char>>
    decreases s.len(),
{
    if s.len() == 0 {
        Seq::empty()
    } else {
        let prev = combined(s.drop_last());
        let p = s.last();
        if is_continuation(p) {
            let piece = p.subrange(2, p.len() as int);
            if prev.len() == 0 {
                seq![piece]
            } else {
                prev.drop_last().push(prev.last() + piece)
            }
        } else {
            prev.push(p)
        }
    }
}

/// The stems of the words that are not stopwords, in order.
pub open spec fn stemmed_kept(s: Seq<Seq<char>>) -> Seq<Seq<char>>
    decreases s.len(),
{
    if s.len() == 0 {
        Seq::empty()
    } else {
        let prev = stemmed_kept(s.drop_last());
        if is_stopword(s.last()) {
            prev
        } else {
            prev.push(english_stem_of(s.last()))
        }
    }
}

/// The search tokens for the pieces of a text: the combined words, without
/// stopwords, stemmed; a single empty token when nothing is left.
pub open spec fn search_tokens(pieces: Seq<Seq<char>>) -> Seq<Seq<char>> {
    let ws = stemmed_kept(combined(pieces));
    if ws.len() == 0 {
        seq![Seq::empty()]
    } else {
        ws
    }
}

/// Joins every continuation piece onto the word before it.
pub fn combine_tokens(tokens: &Vec<String>) -> (r: Vec<String>)
    ensures
        strs(r@) == combined(strs(tokens@)),
{
    let mut r: Vec<String> = Vec::new();
    let mut i: usize = 0;
    while i < tokens.len()
        invariant
            i <= tokens@.len(),
            strs(r@) == combined(strs(tokens@.take(i as int))),
        decreases tokens@.len() - i,
    {
        let t = tokens[i].as_str();
        let n = t.unicode_len();
        proof {
            assert(strs(tokens@.take(i + 1)).drop_last() =~= strs(tokens@.take(i as int)));
            assert(strs(tokens@.take(i + 1)).last() == t@);
        }
        if n >= 2 && t.get_char(0) == '#' && t.get_char(1) == '#' {
            let piece = t.substring_char(2, n);
            match r.pop() {
                Some(last) => {
                    let ghost before = r@;
                    r.push(last.concat(piece));
                    assert(strs(r@) =~= strs(before).push(last@ + piece@));
                },
                None => {
                    r.push(String::from_str(piece));
                    assert(strs(r@) =~= seq![piece@]);
                },
            }
        } else {
            let ghost before = r@;
            r.push(tokens[i].clone());
            assert(strs(r@) =~= strs(before).push(t@));
        }
        i += 1;
    }
    assert(tokens@.take(i as int) =~= tokens@);
    r
}

/// The search tokens for the pieces that a sub-word model made of a text.
pub fn normalize_pieces(pieces: &Vec<String>) -> (r: Vec<String>)
    ensures
        strs(r@) == search_tokens(strs(pieces@)),
        r@.len() >= 1,
{
    let words = combine_tokens(pieces);
    let mut r: Vec<String> = Vec::new();
    let mut i: usize = 0;
    while i < words.len()
        invariant
            i <= words@.len(),
            strs(r@) == stemmed_kept(strs(words@.take(i as int))),
        decreases words@.len() - i,
    {
        proof {
            assert(strs(words@.take(i + 1)).drop_last() =~= strs(words@.take(i as int)));
            assert(strs(words@.take(i + 1)).last() == words@[i as int]@);
        }
        if !stopword(words[i].as_str()) {
            let ghost before = r@;
            r.push(stem(words[i].as_str()));
            assert(strs(r@) =~= strs(before).push(english_stem_of(words@[i as int]@)));
        }
        i += 1;
    }
    assert(words@.take(i as int) =~= words@);
    if r.len() == 0 {
        r.push(String::new());
        assert(strs(r@) =~= seq![Seq::<char>::empty()]);
    }
    r
}

/// Turns free text into search tokens: lowercase, split into sub-word pieces
/// by a model, joined back into words, stopwords dropped, words stemmed.
pub struct WordTokenizer {
    model: tokenizers::Tokenizer,
}

impl WordTokenizer {
    /// The sub-word model behind this tokenizer.
    pub closed spec fn model_spec(&self) -> tokenizers::Tokenizer {
        self.model
    }

    pub open spec fn wf(&self) -> bool {
        is_word_piece(self.model_spec())
    }

    /// The search tokens of `text`, or `None` when the model cannot encode it.
    pub open spec fn tokens_spec(&self, text: Seq<char>) -> Option<Seq<Seq<char>>> {
        match wordpieces_of(self.model_spec(), lowercase_of(text)) {
            Some(pieces) => Some(search_tokens(pieces)),
            None => None,
        }
    }

    /// A tokenizer over `model`, which must be a WordPiece model.
    pub fn new(model: tokenizers::Tokenizer) -> (r: Result<WordTokenizer, SearchError>)
        ensures
            r is Ok <==> is_word_piece(model),
            r matches Ok(t) ==> t.model_spec() == model && t.wf(),
            r matches Err(e) ==> e is TokenizationError,
    {
        if uses_word_piece(&model) {
            Ok(WordTokenizer { model })
        } else {
            Err(
                SearchError::TokenizationError(
                    String::from_str("the model does not split words into word pieces"),
                ),
            )
        }
    }

    /// The search tokens of `text`, or the model's error message.
    pub fn tokenize(&self, text: &str) -> (r: Result<Vec<String>, String>)
        requires
            self.wf(),
        ensures
            r is Ok <==> self.tokens_spec(text@) is Some,
            r matches Ok(v) ==> strs(v@) == self.tokens_spec(text@)->Some_0,
            r matches Ok(v) ==> v@.len() >= 1,
    {
        let lower = to_lowercase(text);
        match encode_pieces(&self.model, lower.as_str()) {
            Ok(pieces) => Ok(normalize_pieces(&pieces)),
            Err(e) => Err(e),
        }
    }
}

} // verus!
