//! The classifier: a frequency model that is trained with labelled
//! messages and rates new ones.

use vstd::prelude::*;
use crate::model::bump_ham;
use crate::model::bump_spam;
use crate::model::entry_views;
use crate::model::is_table;
use crate::model::ham_sum;
use crate::model::lookup_spec;
use crate::model::spam_sum;
use crate::model::table_error;
use crate::model::Counter;
use crate::model::Model;
use crate::model::ModelError;
use crate::model::TokenCount;
use crate::rating::is_proper;
use crate::rating::lemma_rate_lookup_proper;
use crate::rating::rate;
use crate::rating::rate_lookup;
use crate::rating::Rating;
use crate::score::above_threshold;
use crate::score::combine;
use crate::score::combined_odds;
use crate::score::lemma_combined_odds_defined;
use crate::score::Score;
use crate::tokenizer::tokenize;
use crate::tokenizer::tokenize_spec;

verus! {

/// The table after the tokens were counted as spam, one after the other.
pub open spec fn trained_spam(table: Seq<(Seq<char>, Counter)>, tokens: Seq<Seq<char>>) -> Seq<
    (Seq<char>, Counter),
>
    decreases tokens.len(),
{
    if tokens.len() == 0 {
        table
    } else {
        bump_spam(trained_spam(table, tokens.drop_last()), tokens.last())
    }
}

/// The table after the tokens were counted as ham, one after the other.
pub open spec fn trained_ham(table: Seq<(Seq<char>, Counter)>, tokens: Seq<Seq<char>>) -> Seq<
    (Seq<char>, Counter),
>
    decreases tokens.len(),
{
    if tokens.len() == 0 {
        table
    } else {
        bump_ham(trained_ham(table, tokens.drop_last()), tokens.last())
    }
}

/// The rating of the token `t` in a model with the given table.
pub open spec fn rate_token(table: Seq<(Seq<char>, Counter)>, t: Seq<char>) -> Rating {
    rate_lookup(lookup_spec(table, t), ham_sum(table) as u32, spam_sum(table) as u32)
}

/// The ratings of the tokens, in their order.
pub open spec fn ratings_of(table: Seq<(Seq<char>, Counter)>, tokens: Seq<Seq<char>>) -> Seq<
    Rating,
> {
    tokens.map_values(|t: Seq<char>| rate_token(table, t))
}

/// The score of a message in a model with the given table, as odds.
pub open spec fn score_spec(table: Seq<(Seq<char>, Counter)>, msg: Seq<char>) -> (nat, nat) {
    combined_odds(ratings_of(table, tokenize_spec(msg)))
}

/// A model with the given table takes the message for spam.
pub open spec fn identify_spec(table: Seq<(Seq<char>, Counter)>, msg: Seq<char>) -> bool {
    above_threshold(score_spec(table, msg))
}

/// The score of a message is a probability in every model: the ham side
/// of the odds is never zero, so no division by zero stands behind it, and
/// the spam side is zero only where the message has no tokens.
pub proof fn lemma_score_defined(table: Seq<(Seq<char>, Counter)>, msg: Seq<char>)
    ensures
        score_spec(table, msg).1 >= 1,
        tokenize_spec(msg).len() > 0 ==> score_spec(table, msg).0 >= 1,
        tokenize_spec(msg).len() == 0 ==> score_spec(table, msg) == (0nat, 1nat),
{
    let ratings = ratings_of(table, tokenize_spec(msg));
    assert forall|i: int| 0 <= i < ratings.len() implies is_proper(#[trigger] ratings[i]) by {
        lemma_rate_lookup_proper(
            lookup_spec(table, tokenize_spec(msg)[i]),
            ham_sum(table) as u32,
            spam_sum(table) as u32,
        );
    }
    lemma_combined_odds_defined(ratings);
}

/// A Bayesian spam classifier.
pub struct Classifier {
    model: Model,
}

impl View for Classifier {
    type V = Seq<(Seq<char>, Counter)>;

    closed spec fn view(&self) -> Seq<(Seq<char>, Counter)> {
        self.model@
    }
}

impl Classifier {
    /// The classifier is valid.
    pub closed spec fn wf(&self) -> bool {
        self.model.wf()
    }

    /// The table of a valid classifier is one that loading accepts: what
    /// `save` hands out, `new_from_pre_trained` takes back, with the same
    /// counters and so the same totals.
    pub proof fn lemma_saved_table_loads(&self)
        requires
            self.wf(),
        ensures
            is_table(self@),
            table_error(self@) is None,
    {
    }

    /// A classifier with an empty model.
    pub fn new() -> (classifier: Classifier)
        ensures
            classifier.wf(),
            classifier@ == Seq::<(Seq<char>, Counter)>::empty(),
    {
        Classifier { model: Model::new() }
    }

    /// A classifier with the given table as its model. The table is refused
    /// where a token stands in it twice, or where its counts add up to more
    /// than a counter holds.
    pub fn new_from_pre_trained(entries: Vec<TokenCount>) -> (loaded: Result<Classifier, ModelError>)
        ensures
            match loaded {
                Ok(classifier) => {
                    &&& table_error(entry_views(entries@)) is None
                    &&& classifier.wf()
                    &&& classifier@ == entry_views(entries@)
                },
                Err(e) => table_error(entry_views(entries@)) == Some(e),
            },
    {
        match Model::from_entries(entries) {
            Ok(model) => Ok(Classifier { model }),
            Err(e) => Err(e),
        }
    }

    /// The table of the model, entry by entry, as it is to be stored.
    pub fn save(&self) -> (table: Vec<TokenCount>)
        requires
            self.wf(),
        ensures
            entry_views(table@) == self@,
            table_error(entry_views(table@)) is None,
    {
        self.model.entries()
    }

    /// The tokens of a message.
    pub fn load_word_list(msg: &str) -> (tokens: Vec<String>)
        ensures
            tokens.deep_view() == tokenize_spec(msg@),
    {
        tokenize(msg)
    }

    /// Counts each of the tokens as one occurrence in a spam message.
    fn count_spam(&mut self, tokens: Vec<String>)
        requires
            old(self).wf(),
            spam_sum(old(self)@) + tokens.len() <= u32::MAX,
        ensures
            final(self).wf(),
            final(self)@ == trained_spam(old(self)@, tokens.deep_view()),
            spam_sum(final(self)@) == spam_sum(old(self)@) + tokens.len(),
            ham_sum(final(self)@) == ham_sum(old(self)@),
    {
        let ghost before = self@;
        let ghost words = tokens.deep_view();
        assert(words.take(0) =~= Seq::<Seq<char>>::empty());
        for token in it: tokens
            invariant
                it.seq() == tokens@,
                words == tokens.deep_view(),
                self.wf(),
                self@ == trained_spam(before, words.take(it.index() as int)),
                spam_sum(self@) == spam_sum(before) + it.index(),
                ham_sum(self@) == ham_sum(before),
                spam_sum(before) + tokens.len() <= u32::MAX,
        {
            proof {
                let next = words.take(it.index() + 1);
                assert(next.drop_last() =~= words.take(it.index() as int));
                assert(next.last() == token@);
            }
            self.model.increment_spam(token);
        }
        assert(words.take(words.len() as int) =~= words);
    }

    /// Counts each of the tokens as one occurrence in a ham message.
    fn count_ham(&mut self, tokens: Vec<String>)
        requires
            old(self).wf(),
            ham_sum(old(self)@) + tokens.len() <= u32::MAX,
        ensures
            final(self).wf(),
            final(self)@ == trained_ham(old(self)@, tokens.deep_view()),
            ham_sum(final(self)@) == ham_sum(old(self)@) + tokens.len(),
            spam_sum(final(self)@) == spam_sum(old(self)@),
    {
        let ghost before = self@;
        let ghost words = tokens.deep_view();
        assert(words.take(0) =~= Seq::<Seq<char>>::empty());
        for token in it: tokens
            invariant
                it.seq() == tokens@,
                words == tokens.deep_view(),
                self.wf(),
                self@ == trained_ham(before, words.take(it.index() as int)),
                ham_sum(self@) == ham_sum(before) + it.index(),
                spam_sum(self@) == spam_sum(before),
                ham_sum(before) + tokens.len() <= u32::MAX,
        {
            proof {
                let next = words.take(it.index() + 1);
                assert(next.drop_last() =~= words.take(it.index() as int));
                assert(next.last() == token@);
            }
            self.model.increment_ham(token);
        }
        assert(words.take(words.len() as int) =~= words);
    }

    /// Trains the classifier with a spam message: each occurrence of a token
    /// in it is counted once.
    pub fn train_spam(&mut self, msg: &str)
        requires
            old(self).wf(),
            spam_sum(old(self)@) + tokenize_spec(msg@).len() <= u32::MAX,
        ensures
            final(self).wf(),
            final(self)@ == trained_spam(old(self)@, tokenize_spec(msg@)),
            spam_sum(final(self)@) == spam_sum(old(self)@) + tokenize_spec(msg@).len(),
            ham_sum(final(self)@) == ham_sum(old(self)@),
    {
        let tokens = tokenize(msg);
        self.count_spam(tokens);
    }

    /// Trains the classifier with a ham message: each occurrence of a token
    /// in it is counted once.
    pub fn train_ham(&mut self, msg: &str)
        requires
            old(self).wf(),
            ham_sum(old(self)@) + tokenize_spec(msg@).len() <= u32::MAX,
        ensures
            final(self).wf(),
            final(self)@ == trained_ham(old(self)@, tokenize_spec(msg@)),
            ham_sum(final(self)@) == ham_sum(old(self)@) + tokenize_spec(msg@).len(),
            spam_sum(final(self)@) == spam_sum(old(self)@),
    {
        let tokens = tokenize(msg);
        self.count_ham(tokens);
    }

    /// Trains the classifier with a spam message if the counts still fit,
    /// and says whether it did. Otherwise the classifier stays as it is.
    pub fn try_train_spam(&mut self, msg: &str) -> (trained: bool)
        requires
            old(self).wf(),
        ensures
            final(self).wf(),
            trained == (spam_sum(old(self)@) + tokenize_spec(msg@).len() <= u32::MAX),
            trained ==> final(self)@ == trained_spam(old(self)@, tokenize_spec(msg@)),
            trained ==> spam_sum(final(self)@) == spam_sum(old(self)@) + tokenize_spec(msg@).len(),
            trained ==> ham_sum(final(self)@) == ham_sum(old(self)@),
            !trained ==> final(self)@ == old(self)@,
    {
        let tokens = tokenize(msg);
        let room = u32::MAX - self.model.spam_total();
        if tokens.len() <= room as usize {
            self.count_spam(tokens);
            true
        } else {
            false
        }
    }

    /// Trains the classifier with a ham message if the counts still fit,
    /// and says whether it did. Otherwise the classifier stays as it is.
    pub fn try_train_ham(&mut self, msg: &str) -> (trained: bool)
        requires
            old(self).wf(),
        ensures
            final(self).wf(),
            trained == (ham_sum(old(self)@) + tokenize_spec(msg@).len() <= u32::MAX),
            trained ==> final(self)@ == trained_ham(old(self)@, tokenize_spec(msg@)),
            trained ==> ham_sum(final(self)@) == ham_sum(old(self)@) + tokenize_spec(msg@).len(),
            trained ==> spam_sum(final(self)@) == spam_sum(old(self)@),
            !trained ==> final(self)@ == old(self)@,
    {
        let tokens = tokenize(msg);
        let room = u32::MAX - self.model.ham_total();
        if tokens.len() <= room as usize {
            self.count_ham(tokens);
            true
        } else {
            false
        }
    }

    /// The sum of the spam counts of all tokens.
    pub fn spam_total_count(&self) -> (total: u32)
        requires
            self.wf(),
        ensures
            total == spam_sum(self@),
    {
        self.model.spam_total()
    }

    /// The sum of the ham counts of all tokens.
    pub fn ham_total_count(&self) -> (total: u32)
        requires
            self.wf(),
        ensures
            total == ham_sum(self@),
    {
        self.model.ham_total()
    }

    /// The rating of a token: the probability, as odds, that a message
    /// with it is spam.
    pub fn estimate(&self, token: &str) -> (rating: Rating)
        requires
            self.wf(),
        ensures
            rating == rate_token(self@, token@),
            is_proper(rating),
    {
        rate(self.model.lookup(token), self.model.ham_total(), self.model.spam_total())
    }

    /// The rating of each token of the message, in their order.
    pub fn rate_words(&self, msg: &str) -> (ratings: Vec<Rating>)
        requires
            self.wf(),
        ensures
            ratings@ == ratings_of(self@, tokenize_spec(msg@)),
    {
        let tokens = tokenize(msg);
        let mut ratings: Vec<Rating> = Vec::new();
        let mut i: usize = 0;
        while i < tokens.len()
            invariant
                self.wf(),
                i <= tokens.len(),
                tokens.deep_view() == tokenize_spec(msg@),
                ratings@ == ratings_of(self@, tokenize_spec(msg@).take(i as int)),
            decreases tokens.len() - i,
        {
            ratings.push(self.estimate(tokens[i].as_str()));
            i += 1;
            assert(tokens.deep_view()[i - 1] == tokens@[i - 1]@);
            assert(ratings@ =~= ratings_of(self@, tokenize_spec(msg@).take(i as int)));
        }
        assert(tokenize_spec(msg@).take(i as int) =~= tokenize_spec(msg@));
        ratings
    }

    /// The score of the message: the combined odds of its ratings.
    pub fn score(&self, msg: &str) -> (score: Score)
        requires
            self.wf(),
        ensures
            score.wf(),
            score@ == score_spec(self@, msg@),
            score@.1 >= 1,
    {
        proof {
            lemma_score_defined(self@, msg@);
        }
        combine(self.rate_words(msg))
    }

    /// Decides whether the message is spam: whether its score is more than
    /// 0.8.
    pub fn identify(&self, msg: &str) -> (is_spam: bool)
        requires
            self.wf(),
        ensures
            is_spam == identify_spec(self@, msg@),
    {
        self.score(msg).is_above_threshold()
    }
}

impl Default for Classifier {
    fn default() -> (classifier: Classifier)
        ensures
            classifier.wf(),
            classifier@ == Seq::<(Seq<char>, Counter)>::empty(),
    {
        Classifier::new()
    }
}

/// The score of the message in the model with the given table, or why the
/// table is refused.
pub fn score(entries: Vec<TokenCount>, msg: &str) -> (scored: Result<Score, ModelError>)
    ensures
        match scored {
            Ok(score) => {
                &&& table_error(entry_views(entries@)) is None
                &&& score.wf()
                &&& score@ == score_spec(entry_views(entries@), msg@)
            },
            Err(e) => table_error(entry_views(entries@)) == Some(e),
        },
{
    match Classifier::new_from_pre_trained(entries) {
        Ok(classifier) => Ok(classifier.score(msg)),
        Err(e) => Err(e),
    }
}

/// Whether the model with the given table takes the message for spam, or
/// why the table is refused.
pub fn identify(entries: Vec<TokenCount>, msg: &str) -> (identified: Result<bool, ModelError>)
    ensures
        match identified {
            Ok(is_spam) => {
                &&& table_error(entry_views(entries@)) is None
                &&& is_spam == identify_spec(entry_views(entries@), msg@)
            },
            Err(e) => table_error(entry_views(entries@)) == Some(e),
        },
{
    match score(entries, msg) {
        Ok(score) => Ok(score.is_above_threshold()),
        Err(e) => Err(e),
    }
}

} // verus!
