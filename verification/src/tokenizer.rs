//! Cutting a message into normalized tokens.
//!
//! Cleaning removes every character that is neither a letter with a case, nor
//! a separator, nor the colon. What is left is split at runs of separators,
//! each word is put into lower case, and the words of at most two bytes are
//! dropped.

use vstd::prelude::*;
use vstd::utf8::encode_utf8;

verus! {

/// Whether `c` has the Unicode property `Lowercase`.
pub uninterp spec fn unicode_lowercase(c: char) -> bool;

/// Whether `c` has the Unicode property `Uppercase`.
pub uninterp spec fn unicode_uppercase(c: char) -> bool;

/// Whether `c` has the Unicode property `White_Space`.
pub uninterp spec fn unicode_white_space(c: char) -> bool;

/// The lower-case equivalent of a text, as Unicode defines it.
pub uninterp spec fn unicode_lowercased(s: Seq<char>) -> Seq<char>;

/// `char::is_lowercase` of std: the result is the Unicode property
/// `Lowercase` of the character.
pub assume_specification[ char::is_lowercase ](c: char) -> (b: bool)
    ensures
        b == unicode_lowercase(c),
;

/// `char::is_uppercase` of std: the result is the Unicode property
/// `Uppercase` of the character.
pub assume_specification[ char::is_uppercase ](c: char) -> (b: bool)
    ensures
        b == unicode_uppercase(c),
;

/// `char::is_whitespace` of std: the result is the Unicode property
/// `White_Space` of the character, which the space has.
pub assume_specification[ char::is_whitespace ](c: char) -> (b: bool)
    ensures
        b == unicode_white_space(c),
        c == ' ' ==> b,
;

/// `str::to_lowercase` of std: the new string holds the lower-case
/// equivalent of the slice.
pub assume_specification[ str::to_lowercase ](s: &str) -> (lower: String)
    ensures
        lower@ == unicode_lowercased(s@),
;

/// `String::push` of std: the character is appended at the end.
pub assume_specification[ String::push ](s: &mut String, c: char)
    ensures
        final(s)@ == old(s)@.push(c),
;

/// A character that separates words: the space, or any other character
/// with the Unicode property `White_Space`.
pub open spec fn is_separator(c: char) -> bool {
    c == ' ' || unicode_white_space(c)
}

/// A character that cleaning keeps: a letter with a case, a separator, or
/// the colon.
pub open spec fn is_kept(c: char) -> bool {
    unicode_lowercase(c) || unicode_uppercase(c) || is_separator(c) || c == ':'
}

/// `is_kept` as a predicate value.
pub open spec fn kept() -> spec_fn(char) -> bool {
    |c: char| is_kept(c)
}

/// The message without the characters that cleaning removes.
pub open spec fn clean(msg: Seq<char>) -> Seq<char> {
    msg.filter(kept())
}

/// The length of the longest prefix of `s` that holds no separator.
pub open spec fn word_len(s: Seq<char>) -> nat
    decreases s.len(),
{
    if s.len() == 0 || is_separator(s[0]) {
        0
    } else {
        1 + word_len(s.drop_first())
    }
}

/// The maximal runs of characters other than separators, in order.
pub open spec fn split_words(s: Seq<char>) -> Seq<Seq<char>>
    decreases s.len(),
    via split_words_decreases
{
    if s.len() == 0 {
        Seq::empty()
    } else if is_separator(s[0]) {
        split_words(s.drop_first())
    } else {
        seq![s.take(word_len(s) as int)] + split_words(s.skip(word_len(s) as int))
    }
}

#[via_fn]
proof fn split_words_decreases(s: Seq<char>) {
    lemma_word_len_bounds(s);
}

/// A word is a token when it takes more than two bytes in UTF-8.
pub open spec fn is_token(w: Seq<char>) -> bool {
    encode_utf8(w).len() > 2
}

/// `unicode_lowercased` as a function value.
pub open spec fn lowercased() -> spec_fn(Seq<char>) -> Seq<char> {
    |w: Seq<char>| unicode_lowercased(w)
}

/// `is_token` as a predicate value.
pub open spec fn long_enough() -> spec_fn(Seq<char>) -> bool {
    |w: Seq<char>| is_token(w)
}

/// The words in lower case, without those that are too short.
pub open spec fn normalize(words: Seq<Seq<char>>) -> Seq<Seq<char>> {
    words.map_values(lowercased()).filter(long_enough())
}

/// The tokens of a message.
pub open spec fn tokenize_spec(msg: Seq<char>) -> Seq<Seq<char>> {
    normalize(split_words(clean(msg)))
}

/// The first word is no longer than the text, and not empty where the text
/// starts with another character than a separator.
pub proof fn lemma_word_len_bounds(s: Seq<char>)
    ensures
        word_len(s) <= s.len(),
        s.len() > 0 && !is_separator(s[0]) ==> word_len(s) >= 1,
    decreases s.len(),
{
    if s.len() > 0 && !is_separator(s[0]) {
        lemma_word_len_bounds(s.drop_first());
    }
}

/// A prefix without separators that ends at a separator, or at the end of
/// the text, is the first word.
pub proof fn lemma_word_len_is(s: Seq<char>, n: int)
    requires
        0 <= n <= s.len(),
        forall|k: int| 0 <= k < n ==> !is_separator(#[trigger] s[k]),
        n == s.len() || is_separator(s[n]),
    ensures
        word_len(s) == n,
    decreases n,
{
    if n > 0 {
        let t = s.drop_first();
        assert forall|k: int| 0 <= k < n - 1 implies !is_separator(#[trigger] t[k]) by {
            assert(t[k] == s[k + 1]);
        }
        lemma_word_len_is(t, n - 1);
    }
}

/// Decides whether cleaning keeps `c`.
pub fn keeps(c: char) -> (b: bool)
    ensures
        b == is_kept(c),
{
    c.is_lowercase() || c.is_uppercase() || c.is_whitespace() || c == ':'
}

/// The characters of `msg` that cleaning keeps, in order.
pub fn clean_chars(msg: &str) -> (text: Vec<char>)
    ensures
        text@ == clean(msg@),
{
    let mut text: Vec<char> = Vec::new();
    for c in it: msg.chars()
        invariant
            it.seq() == msg@,
            text@ == clean(msg@.take(it.index() as int)),
    {
        proof {
            let done = msg@.take(it.index() as int);
            assert(msg@.take(it.index() + 1) =~= done.push(c));
            Seq::lemma_filter_push(done, c, kept());
        }
        if keeps(c) {
            text.push(c);
        }
    }
    proof {
        assert(msg@.take(msg@.len() as int) =~= msg@);
    }
    text
}

/// Appending one word to the words appends its lower-case form to the
/// tokens, if that is long enough.
pub proof fn lemma_normalize_push(words: Seq<Seq<char>>, w: Seq<char>)
    ensures
        normalize(words.push(w)) == if is_token(unicode_lowercased(w)) {
            normalize(words).push(unicode_lowercased(w))
        } else {
            normalize(words)
        },
{
    Seq::lemma_push_map_commute(words, lowercased(), w);
    Seq::lemma_filter_push(
        words.map_values(lowercased()),
        unicode_lowercased(w),
        long_enough(),
    );
}

/// The text from `i` on starts with a separator: the words are those after it.
proof fn lemma_split_skips_separator(text: Seq<char>, i: int)
    requires
        0 <= i < text.len(),
        is_separator(text[i]),
    ensures
        split_words(text.skip(i)) == split_words(text.skip(i + 1)),
{
    assert(text.skip(i).drop_first() =~= text.skip(i + 1));
}

/// The text from `i` on starts with a word that ends before `j`.
proof fn lemma_split_takes_word(text: Seq<char>, i: int, j: int)
    requires
        0 <= i < j <= text.len(),
        forall|k: int| i <= k < j ==> !is_separator(#[trigger] text[k]),
        j == text.len() || is_separator(text[j]),
    ensures
        split_words(text.skip(i)) == seq![text.subrange(i, j)] + split_words(text.skip(j)),
{
    let s = text.skip(i);
    assert forall|k: int| 0 <= k < j - i implies !is_separator(#[trigger] s[k]) by {
        assert(s[k] == text[i + k]);
    }
    lemma_word_len_is(s, j - i);
    assert(s.take(j - i) =~= text.subrange(i, j));
    assert(s.skip(j - i) =~= text.skip(j));
}

/// The tokens of a message: its words in lower case, in order, without
/// those of at most two bytes.
pub fn tokenize(msg: &str) -> (tokens: Vec<String>)
    ensures
        tokens.deep_view() == tokenize_spec(msg@),
{
    let text = clean_chars(msg);
    let mut tokens: Vec<String> = Vec::new();
    let ghost mut words: Seq<Seq<char>> = Seq::empty();
    let mut i: usize = 0;
    assert(text@.skip(0) =~= text@);
    assert(tokens.deep_view() =~= normalize(words));
    while i < text.len()
        invariant
            i <= text.len(),
            split_words(text@) == words + split_words(text@.skip(i as int)),
            tokens.deep_view() == normalize(words),
        decreases text.len() - i,
    {
        if text[i].is_whitespace() {
            proof {
                lemma_split_skips_separator(text@, i as int);
            }
            i += 1;
        } else {
            let start = i;
            let mut word = String::new();
            while i < text.len() && !text[i].is_whitespace()
                invariant
                    start <= i <= text.len(),
                    word@ == text@.subrange(start as int, i as int),
                    forall|k: int| start <= k < i ==> !is_separator(#[trigger] text@[k]),
                decreases text.len() - i,
            {
                word.push(text[i]);
                i += 1;
                assert(word@ =~= text@.subrange(start as int, i as int));
            }
            let lower = word.as_str().to_lowercase();
            proof {
                lemma_split_takes_word(text@, start as int, i as int);
                lemma_normalize_push(words, word@);
                assert(words + (seq![word@] + split_words(text@.skip(i as int)))
                    =~= words.push(word@) + split_words(text@.skip(i as int)));
                words = words.push(word@);
            }
            if lower.as_str().as_bytes().len() > 2 {
                let ghost before = tokens.deep_view();
                tokens.push(lower);
                assert(tokens.deep_view() =~= before.push(lower@));
            }
        }
    }
    proof {
        assert(text@.skip(text@.len() as int) =~= Seq::<char>::empty());
        assert(words + Seq::<Seq<char>>::empty() =~= words);
    }
    tokens
}

/// A text has no more words than characters.
pub proof fn lemma_word_count(s: Seq<char>)
    ensures
        split_words(s).len() <= s.len(),
    decreases s.len(),
{
    if s.len() == 0 {
    } else if is_separator(s[0]) {
        lemma_word_count(s.drop_first());
    } else {
        lemma_word_len_bounds(s);
        lemma_word_count(s.skip(word_len(s) as int));
    }
}

/// A message has no more tokens than characters.
pub proof fn lemma_token_count(msg: Seq<char>)
    ensures
        tokenize_spec(msg).len() <= msg.len(),
{
    let text = clean(msg);
    let lowered = split_words(text).map_values(lowercased());
    msg.lemma_filter_len(kept());
    lemma_word_count(text);
    lowered.lemma_filter_len(long_enough());
}

/// The first word holds no separator.
pub proof fn lemma_word_has_no_separator(s: Seq<char>)
    ensures
        forall|i: int| 0 <= i < word_len(s) ==> !is_separator(#[trigger] s[i]),
    decreases s.len(),
{
    if s.len() > 0 && !is_separator(s[0]) {
        let rest = s.drop_first();
        lemma_word_has_no_separator(rest);
        lemma_word_len_bounds(s);
        assert forall|i: int| 0 <= i < word_len(s) implies !is_separator(#[trigger] s[i]) by {
            if i > 0 {
                assert(s[i] == rest[i - 1]);
            }
        }
    }
}

/// A word that splitting gives: it is not empty, it holds no separator, and
/// each of its characters passes `pred`.
pub open spec fn is_word_of(w: Seq<char>, pred: spec_fn(char) -> bool) -> bool {
    &&& w.len() > 0
    &&& forall|i: int| 0 <= i < w.len() ==> !is_separator(#[trigger] w[i]) && pred(w[i])
}

/// Splitting a text gives words only, of characters of the text.
pub proof fn lemma_split_gives_words(s: Seq<char>, pred: spec_fn(char) -> bool)
    requires
        forall|i: int| 0 <= i < s.len() ==> pred(#[trigger] s[i]),
    ensures
        forall|k: int|
            0 <= k < split_words(s).len() ==> is_word_of(#[trigger] split_words(s)[k], pred),
    decreases s.len(),
{
    if s.len() == 0 {
        assert(split_words(s).len() == 0);
    } else if is_separator(s[0]) {
        let rest = s.drop_first();
        assert forall|i: int| 0 <= i < rest.len() implies pred(#[trigger] rest[i]) by {
            assert(rest[i] == s[i + 1]);
        }
        lemma_split_gives_words(rest, pred);
        assert(split_words(s) == split_words(rest));
    } else {
        let n = word_len(s) as int;
        lemma_word_len_bounds(s);
        lemma_word_has_no_separator(s);
        let first = s.take(n);
        let rest = s.skip(n);
        assert forall|i: int| 0 <= i < rest.len() implies pred(#[trigger] rest[i]) by {
            assert(rest[i] == s[i + n]);
        }
        lemma_split_gives_words(rest, pred);
        assert(is_word_of(first, pred)) by {
            assert forall|i: int| 0 <= i < first.len() implies !is_separator(#[trigger] first[i])
                && pred(first[i]) by {
                assert(first[i] == s[i]);
            }
        }
        let words = split_words(s);
        assert(words == seq![first] + split_words(rest));
        assert forall|k: int| 0 <= k < words.len() implies is_word_of(#[trigger] words[k], pred) by {
            if k > 0 {
                assert(words[k] == split_words(rest)[k - 1]);
            } else {
                assert(words[k] == first);
            }
        }
    }
}

/// What a token is: it takes more than two bytes, and it is the lower-case
/// form of a word of letters with a case and colons.
pub proof fn lemma_tokens_normal(msg: Seq<char>)
    ensures
        forall|k: int|
            0 <= k < tokenize_spec(msg).len() ==> {
                &&& is_token(#[trigger] tokenize_spec(msg)[k])
                &&& exists|w: Seq<char>|
                    is_word_of(w, kept()) && tokenize_spec(msg)[k] == #[trigger] unicode_lowercased(w)
            },
{
    let text = clean(msg);
    let words = split_words(text);
    let lowered = words.map_values(lowercased());
    let tokens = tokenize_spec(msg);
    assert forall|i: int| 0 <= i < text.len() implies kept()(#[trigger] text[i]) by {
        Seq::lemma_filter_pred(msg, kept(), i);
    }
    lemma_split_gives_words(text, kept());
    assert forall|k: int| 0 <= k < tokens.len() implies {
        &&& is_token(#[trigger] tokens[k])
        &&& exists|w: Seq<char>|
            is_word_of(w, kept()) && tokens[k] == #[trigger] unicode_lowercased(w)
    } by {
        Seq::lemma_filter_pred(lowered, long_enough(), k);
        lowered.lemma_filter_contains_rev(long_enough(), tokens[k]);
        assert(lowered.contains(tokens[k]));
        let j = choose|j: int| 0 <= j < lowered.len() && lowered[j] == tokens[k];
        assert(is_word_of(words[j], kept()));
        assert(tokens[k] == unicode_lowercased(words[j]));
    }
}

/// The words in a row, with one space between neighbours.
pub open spec fn join_words(words: Seq<Seq<char>>) -> Seq<char>
    decreases words.len(),
{
    if words.len() == 0 {
        Seq::empty()
    } else if words.len() == 1 {
        words[0]
    } else {
        words[0] + seq![' '] + join_words(words.drop_first())
    }
}

/// A word that tokenizing hands back as it is: cleaning keeps each of its
/// characters, none of them is a separator, and it is in lower case.
pub open spec fn is_stable(w: Seq<char>) -> bool {
    &&& forall|i: int| 0 <= i < w.len() ==> is_kept(#[trigger] w[i]) && !is_separator(w[i])
    &&& unicode_lowercased(w) == w
}

/// A filter keeps a sequence whole if all its elements pass.
proof fn lemma_filter_all<A>(s: Seq<A>, pred: spec_fn(A) -> bool)
    requires
        forall|i: int| 0 <= i < s.len() ==> pred(#[trigger] s[i]),
    ensures
        s.filter(pred) == s,
    decreases s.len(),
{
    if s.len() > 0 {
        let front = s.drop_last();
        assert forall|i: int| 0 <= i < front.len() implies pred(#[trigger] front[i]) by {
            assert(front[i] == s[i]);
        }
        lemma_filter_all(front, pred);
        Seq::lemma_filter_push(front, s.last(), pred);
        assert(front.push(s.last()) =~= s);
    } else {
        assert(s.filter(pred) =~= s);
    }
}

/// Cleaning keeps every character of words in a row whose characters it
/// keeps.
proof fn lemma_join_is_clean(words: Seq<Seq<char>>)
    requires
        forall|k: int, i: int|
            0 <= k < words.len() && 0 <= i < words[k].len() ==> is_kept(#[trigger] words[k][i]),
    ensures
        forall|i: int| 0 <= i < join_words(words).len() ==> is_kept(#[trigger] join_words(words)[i]),
    decreases words.len(),
{
    if words.len() >= 2 {
        let rest = words.drop_first();
        assert forall|k: int, i: int| 0 <= k < rest.len() && 0 <= i < rest[k].len() implies is_kept(
            #[trigger] rest[k][i],
        ) by {
            assert(rest[k] == words[k + 1]);
        }
        lemma_join_is_clean(rest);
        let joined = join_words(words);
        let n = words[0].len();
        assert forall|i: int| 0 <= i < joined.len() implies is_kept(#[trigger] joined[i]) by {
            if i < n {
                assert(joined[i] == words[0][i]);
            } else if i == n {
                assert(joined[i] == ' ');
            } else {
                assert(joined[i] == join_words(rest)[i - n - 1]);
            }
        }
    }
}

/// Splitting words in a row gives the words back, if none of them is empty
/// or holds a separator.
proof fn lemma_split_join(words: Seq<Seq<char>>)
    requires
        forall|k: int| 0 <= k < words.len() ==> (#[trigger] words[k]).len() > 0,
        forall|k: int, i: int|
            0 <= k < words.len() && 0 <= i < words[k].len() ==> !is_separator(
                #[trigger] words[k][i],
            ),
    ensures
        split_words(join_words(words)) == words,
    decreases words.len(),
{
    if words.len() == 0 {
        assert(words =~= Seq::<Seq<char>>::empty());
    } else {
        let w = words[0];
        let s = join_words(words);
        assert(w.len() > 0);
        let n = w.len() as int;
        assert forall|i: int| 0 <= i < n implies !is_separator(#[trigger] s[i]) by {
            assert(s[i] == words[0][i]);
        }
        assert(!is_separator(s[0]));
        if words.len() == 1 {
            lemma_word_len_is(s, n);
            assert(s.take(n) =~= w);
            assert(s.skip(n) =~= Seq::<char>::empty());
            assert(split_words(s.skip(n)) =~= Seq::<Seq<char>>::empty());
            assert(seq![w] + Seq::<Seq<char>>::empty() =~= words);
        } else {
            let rest = words.drop_first();
            assert forall|k: int| 0 <= k < rest.len() implies (#[trigger] rest[k]).len() > 0 by {
                assert(rest[k] == words[k + 1]);
            }
            assert forall|k: int, i: int|
                0 <= k < rest.len() && 0 <= i < rest[k].len() implies !is_separator(
                #[trigger] rest[k][i],
            ) by {
                assert(rest[k] == words[k + 1]);
            }
            lemma_split_join(rest);
            assert(s[n] == ' ');
            lemma_word_len_is(s, n);
            assert(s.take(n) =~= w);
            let tail = s.skip(n);
            assert(tail[0] == ' ');
            assert(is_separator(tail[0]));
            assert(tail.drop_first() =~= join_words(rest));
            assert(split_words(tail) == rest);
            assert(seq![w] + rest =~= words);
        }
    }
}

/// Tokenizing is idempotent: the tokens of a message, put in a row with
/// spaces between them, have themselves as their tokens, provided that
/// each of them is stable.
pub proof fn lemma_tokenize_idempotent(msg: Seq<char>)
    requires
        forall|k: int|
            0 <= k < tokenize_spec(msg).len() ==> is_stable(#[trigger] tokenize_spec(msg)[k]),
    ensures
        tokenize_spec(join_words(tokenize_spec(msg))) == tokenize_spec(msg),
{
    let tokens = tokenize_spec(msg);
    let lowered = split_words(clean(msg)).map_values(lowercased());
    assert forall|k: int| 0 <= k < tokens.len() implies is_token(#[trigger] tokens[k]) by {
        Seq::lemma_filter_pred(lowered, long_enough(), k);
    }
    assert forall|k: int| 0 <= k < tokens.len() implies (#[trigger] tokens[k]).len() > 0 by {
        assert(is_token(tokens[k]));
        if tokens[k].len() == 0 {
            assert(tokens[k] =~= Seq::<char>::empty());
            assert(encode_utf8(Seq::<char>::empty()).len() == 0);
        }
    }
    assert forall|k: int, i: int| 0 <= k < tokens.len() && 0 <= i < tokens[k].len() implies is_kept(
        #[trigger] tokens[k][i],
    ) && !is_separator(tokens[k][i]) by {
        assert(is_stable(tokens[k]));
    }
    let joined = join_words(tokens);
    lemma_join_is_clean(tokens);
    lemma_filter_all(joined, kept());
    lemma_split_join(tokens);
    assert(tokens.map_values(lowercased()) =~= tokens) by {
        assert forall|k: int| 0 <= k < tokens.len() implies lowercased()(#[trigger] tokens[k])
            == tokens[k] by {
            assert(is_stable(tokens[k]));
        }
    }
    assert forall|k: int| 0 <= k < tokens.len() implies long_enough()(#[trigger] tokens[k]) by {
        assert(is_token(tokens[k]));
    }
    lemma_filter_all(tokens, long_enough());
}

} // verus!
