//! The tokens of a document: what stands between the text of a document and
//! its tree.

use crate::normalize::normalize_text;
use crate::normalize::normalized_text;
use crate::tokenizer::LoadError;
use crate::tokenizer::RawEvent;
use crate::tokenizer::RawEventView;
use crate::tokenizer::decode;
use crate::tokenizer::read_attributes;
use crate::tokenizer::tag_attributes;
use vstd::prelude::*;
use vstd::utf8::decode_utf8;
use vstd::utf8::valid_utf8;

verus! {

/// One token of a document, in the order of the text.
#[derive(Debug)]
pub enum Token {
    /// An opening tag: its name as written, and its attributes in source
    /// order, each a name and the value as written.
    Start { name: String, attrs: Vec<(String, String)> },
    /// A closing tag.
    End { name: String },
    /// A tag that closes itself.
    Empty { name: String },
    /// A run of text.
    Text { text: String },
}

/// What a [`Token`] holds.
pub enum TokenView {
    Start { name: Seq<char>, attrs: Seq<(Seq<char>, Seq<char>)> },
    End { name: Seq<char> },
    Empty { name: Seq<char> },
    Text { text: Seq<char> },
}

impl View for Token {
    type V = TokenView;

    open spec fn view(&self) -> TokenView {
        match *self {
            Token::Start { name, attrs } => TokenView::Start {
                name: name@,
                attrs: attrs.deep_view(),
            },
            Token::End { name } => TokenView::End { name: name@ },
            Token::Empty { name } => TokenView::Empty { name: name@ },
            Token::Text { text } => TokenView::Text { text: text@ },
        }
    }
}

impl DeepView for Token {
    type V = TokenView;

    open spec fn deep_view(&self) -> TokenView {
        self@
    }
}

/// The string that the bytes encode, if they are UTF-8.
pub open spec fn decoded(bytes: Seq<u8>) -> Result<Seq<char>, ()> {
    if valid_utf8(bytes) {
        Ok(decode_utf8(bytes))
    } else {
        Err(())
    }
}

/// The attributes of a start token, from what the tokenizer found in the
/// tag: what it could not read as an attribute is left out, and the names
/// and values of the others are decoded. It fails where one of them is not
/// UTF-8.
pub open spec fn attribute_sources(pairs: Seq<Option<(Seq<u8>, Seq<u8>)>>) -> Result<
    Seq<(Seq<char>, Seq<char>)>,
    (),
>
    decreases pairs.len(),
{
    if pairs.len() == 0 {
        Ok(Seq::empty())
    } else {
        match attribute_sources(pairs.drop_last()) {
            Err(_) => Err(()),
            Ok(front) => match pairs.last() {
                None => Ok(front),
                Some((name, value)) => match (decoded(name), decoded(value)) {
                    (Ok(n), Ok(v)) => Ok(front.push((n, v))),
                    _ => Err(()),
                },
            },
        }
    }
}

/// The token of an opening tag with the given name and attributes.
pub open spec fn start_token_of(name: Seq<u8>, pairs: Seq<Option<(Seq<u8>, Seq<u8>)>>) -> Result<
    TokenView,
    (),
> {
    match (decoded(name), attribute_sources(pairs)) {
        (Ok(n), Ok(attrs)) => Ok(TokenView::Start { name: n, attrs }),
        _ => Err(()),
    }
}

/// The token of a run of text: none where nothing is left of the text once
/// it is normalized.
pub open spec fn text_token_of(bytes: Seq<u8>) -> Result<Option<TokenView>, ()> {
    let kept = normalized_text(bytes);
    if kept.len() == 0 {
        Ok(None)
    } else {
        match decoded(kept) {
            Ok(text) => Ok(Some(TokenView::Text { text })),
            Err(_) => Err(()),
        }
    }
}

/// The token of a closing tag.
pub open spec fn end_token_of(name: Seq<u8>) -> Result<TokenView, ()> {
    match decoded(name) {
        Ok(n) => Ok(TokenView::End { name: n }),
        Err(_) => Err(()),
    }
}

/// The token of a tag that closes itself.
pub open spec fn empty_token_of(name: Seq<u8>) -> Result<TokenView, ()> {
    match decoded(name) {
        Ok(n) => Ok(TokenView::Empty { name: n }),
        Err(_) => Err(()),
    }
}

/// The token that an event stands for, if it stands for one.
pub open spec fn token_of(event: RawEventView) -> Result<Option<TokenView>, ()> {
    match event {
        RawEventView::Start { name, raw } => match start_token_of(
            name,
            tag_attributes(raw, name.len()),
        ) {
            Ok(t) => Ok(Some(t)),
            Err(_) => Err(()),
        },
        RawEventView::End { name } => match end_token_of(name) {
            Ok(t) => Ok(Some(t)),
            Err(_) => Err(()),
        },
        RawEventView::Empty { name } => match empty_token_of(name) {
            Ok(t) => Ok(Some(t)),
            Err(_) => Err(()),
        },
        RawEventView::Text { bytes } => text_token_of(bytes),
        RawEventView::Other => Ok(None),
        RawEventView::Eof => Ok(None),
    }
}

/// The tokens that the events stand for, in their order.
pub open spec fn tokens_of(events: Seq<RawEventView>) -> Result<Seq<TokenView>, ()>
    decreases events.len(),
{
    if events.len() == 0 {
        Ok(Seq::empty())
    } else {
        match tokens_of(events.drop_last()) {
            Err(_) => Err(()),
            Ok(front) => match token_of(events.last()) {
                Err(_) => Err(()),
                Ok(None) => Ok(front),
                Ok(Some(t)) => Ok(front.push(t)),
            },
        }
    }
}

/// Decodes the bytes.
fn decode_bytes(bytes: &Vec<u8>) -> (r: Result<String, LoadError>)
    ensures
        match r {
            Ok(s) => decoded(bytes@) == Ok::<Seq<char>, ()>(s@),
            Err(e) => e is NotUtf8 && decoded(bytes@) is Err,
        },
{
    match decode(bytes) {
        Ok(s) => Ok(s),
        Err(e) => Err(LoadError::NotUtf8(e)),
    }
}

/// Decodes the attributes that the tokenizer found in a tag.
pub fn decode_attributes(pairs: &Vec<Option<(Vec<u8>, Vec<u8>)>>) -> (r: Result<
    Vec<(String, String)>,
    LoadError,
>)
    ensures
        match r {
            Ok(attrs) => attribute_sources(pairs.deep_view()) == Ok::<
                Seq<(Seq<char>, Seq<char>)>,
                (),
            >(attrs.deep_view()),
            Err(e) => e is NotUtf8 && attribute_sources(pairs.deep_view()) is Err,
        },
{
    let ghost all = pairs.deep_view();
    let mut attrs: Vec<(String, String)> = Vec::new();
    let mut i: usize = 0;
    assert(all.take(0) =~= Seq::empty());
    assert(attrs.deep_view() =~= Seq::empty());
    while i < pairs.len()
        invariant
            i <= pairs.len(),
            all == pairs.deep_view(),
            attribute_sources(all.take(i as int)) == Ok::<Seq<(Seq<char>, Seq<char>)>, ()>(
                attrs.deep_view(),
            ),
        decreases pairs.len() - i,
    {
        let ghost before = attrs.deep_view();
        proof {
            assert(all.take(i + 1).drop_last() =~= all.take(i as int));
            assert(all.take(i + 1).last() == pairs@[i as int].deep_view());
            lemma_attribute_sources_fail(all, i + 1);
        }
        match &pairs[i] {
            Some((name, value)) => {
                assert(name.deep_view() =~= name@);
                assert(value.deep_view() =~= value@);
                let n = match decode_bytes(name) {
                    Ok(n) => n,
                    Err(e) => {
                        return Err(e);
                    },
                };
                let v = match decode_bytes(value) {
                    Ok(v) => v,
                    Err(e) => {
                        return Err(e);
                    },
                };
                attrs.push((n, v));
                assert(attrs.deep_view() =~= before.push((n@, v@)));
            },
            None => {},
        }
        i += 1;
    }
    assert(all.take(pairs.len() as int) =~= all);
    Ok(attrs)
}

/// Where the first attributes fail, all of them fail.
pub proof fn lemma_attribute_sources_fail(pairs: Seq<Option<(Seq<u8>, Seq<u8>)>>, n: int)
    requires
        0 <= n <= pairs.len(),
    ensures
        attribute_sources(pairs.take(n)) is Err ==> attribute_sources(pairs) is Err,
    decreases pairs.len() - n,
{
    if n < pairs.len() {
        assert(pairs.take(n + 1).drop_last() =~= pairs.take(n));
        lemma_attribute_sources_fail(pairs, n + 1);
    } else {
        assert(pairs.take(n) =~= pairs);
    }
}

/// Where the first events fail, all of them fail.
pub proof fn lemma_tokens_fail(events: Seq<RawEventView>, n: int)
    requires
        0 <= n <= events.len(),
    ensures
        tokens_of(events.take(n)) is Err ==> tokens_of(events) is Err,
    decreases events.len() - n,
{
    if n < events.len() {
        assert(events.take(n + 1).drop_last() =~= events.take(n));
        lemma_tokens_fail(events, n + 1);
    } else {
        assert(events.take(n) =~= events);
    }
}

impl Token {
    /// The token of an opening tag, from its name and from what the
    /// tokenizer found behind the name.
    pub fn start(name: &Vec<u8>, pairs: &Vec<Option<(Vec<u8>, Vec<u8>)>>) -> (r: Result<
        Token,
        LoadError,
    >)
        ensures
            match r {
                Ok(t) => start_token_of(name@, pairs.deep_view()) == Ok::<TokenView, ()>(t@),
                Err(e) => e is NotUtf8 && start_token_of(name@, pairs.deep_view()) is Err,
            },
    {
        match decode_bytes(name) {
            Ok(n) => match decode_attributes(pairs) {
                Ok(attrs) => Ok(Token::Start { name: n, attrs }),
                Err(e) => Err(e),
            },
            Err(e) => Err(e),
        }
    }

    /// The token of a closing tag.
    pub fn end(name: &Vec<u8>) -> (r: Result<Token, LoadError>)
        ensures
            match r {
                Ok(t) => end_token_of(name@) == Ok::<TokenView, ()>(t@),
                Err(e) => e is NotUtf8 && end_token_of(name@) is Err,
            },
    {
        match decode_bytes(name) {
            Ok(n) => Ok(Token::End { name: n }),
            Err(e) => Err(e),
        }
    }

    /// The token of a tag that closes itself.
    pub fn empty(name: &Vec<u8>) -> (r: Result<Token, LoadError>)
        ensures
            match r {
                Ok(t) => empty_token_of(name@) == Ok::<TokenView, ()>(t@),
                Err(e) => e is NotUtf8 && empty_token_of(name@) is Err,
            },
    {
        match decode_bytes(name) {
            Ok(n) => Ok(Token::Empty { name: n }),
            Err(e) => Err(e),
        }
    }

    /// The token of a run of text, normalized; none where nothing is left
    /// of it.
    pub fn text(bytes: &Vec<u8>) -> (r: Result<Option<Token>, LoadError>)
        ensures
            match r {
                Ok(t) => text_token_of(bytes@) == Ok::<Option<TokenView>, ()>(t.deep_view()),
                Err(e) => e is NotUtf8 && text_token_of(bytes@) is Err,
            },
    {
        let kept = normalize_text(bytes);
        if kept.len() == 0 {
            Ok(None)
        } else {
            match decode_bytes(&kept) {
                Ok(text) => Ok(Some(Token::Text { text })),
                Err(e) => Err(e),
            }
        }
    }

    /// The token that an event stands for, if it stands for one.
    pub fn from_event(event: &RawEvent) -> (r: Result<Option<Token>, LoadError>)
        ensures
            match r {
                Ok(t) => token_of(event@) == Ok::<Option<TokenView>, ()>(t.deep_view()),
                Err(e) => e is NotUtf8 && token_of(event@) is Err,
            },
    {
        match event {
            RawEvent::Start { name, raw } => {
                let pairs = read_attributes(raw, name.len());
                match Token::start(name, &pairs) {
                    Ok(t) => Ok(Some(t)),
                    Err(e) => Err(e),
                }
            },
            RawEvent::End { name } => match Token::end(name) {
                Ok(t) => Ok(Some(t)),
                Err(e) => Err(e),
            },
            RawEvent::Empty { name } => match Token::empty(name) {
                Ok(t) => Ok(Some(t)),
                Err(e) => Err(e),
            },
            RawEvent::Text { bytes } => Token::text(bytes),
            RawEvent::Other => Ok(None),
            RawEvent::Eof => Ok(None),
        }
    }
}

/// The tokens of a document, from its events: runs of text are normalized
/// and those of which nothing is left are dropped, names and values are
/// decoded.
pub fn tokenize(events: &Vec<RawEvent>) -> (r: Result<Vec<Token>, LoadError>)
    ensures
        match r {
            Ok(tokens) => tokens_of(events.deep_view()) == Ok::<Seq<TokenView>, ()>(
                tokens.deep_view(),
            ),
            Err(e) => e is NotUtf8 && tokens_of(events.deep_view()) is Err,
        },
{
    let ghost all = events.deep_view();
    let mut tokens: Vec<Token> = Vec::new();
    let mut i: usize = 0;
    assert(all.take(0) =~= Seq::empty());
    assert(tokens.deep_view() =~= Seq::empty());
    while i < events.len()
        invariant
            i <= events.len(),
            all == events.deep_view(),
            tokens_of(all.take(i as int)) == Ok::<Seq<TokenView>, ()>(tokens.deep_view()),
        decreases events.len() - i,
    {
        let ghost before = tokens.deep_view();
        proof {
            assert(all.take(i + 1).drop_last() =~= all.take(i as int));
            assert(all.take(i + 1).last() == events@[i as int]@);
            lemma_tokens_fail(all, i + 1);
        }
        match Token::from_event(&events[i]) {
            Ok(Some(token)) => {
                tokens.push(token);
                assert(tokens.deep_view() =~= before.push(token@));
            },
            Ok(None) => {},
            Err(e) => {
                return Err(e);
            },
        }
        i += 1;
    }
    assert(all.take(events.len() as int) =~= all);
    Ok(tokens)
}

} // verus!
