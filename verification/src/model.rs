//! The frequency model: for each token, how often it occurred in ham and in
//! spam messages.

use vstd::hash_map::StringHashMap;
use vstd::prelude::*;

verus! {

/// How often one token occurred in messages of each class.
#[derive(Clone, Copy, Debug, PartialEq, Eq, Structural)]
pub struct Counter {
    pub ham: u32,
    pub spam: u32,
}

/// One token with its counter: the form in which a model is handed out and
/// taken in.
#[derive(Debug)]
pub struct TokenCount {
    pub token: String,
    pub counter: Counter,
}

impl View for TokenCount {
    type V = (Seq<char>, Counter);

    open spec fn view(&self) -> (Seq<char>, Counter) {
        (self.token@, self.counter)
    }
}

/// The views of a sequence of entries.
pub open spec fn entry_views(entries: Seq<TokenCount>) -> Seq<(Seq<char>, Counter)> {
    entries.map_values(|e: TokenCount| e@)
}

/// No token stands in two entries.
pub open spec fn tokens_distinct(s: Seq<(Seq<char>, Counter)>) -> bool {
    forall|i: int, j: int| 0 <= i < j < s.len() ==> (#[trigger] s[i]).0 != (#[trigger] s[j]).0
}

/// The sum of the ham counts of all entries.
pub open spec fn ham_sum(s: Seq<(Seq<char>, Counter)>) -> nat
    decreases s.len(),
{
    if s.len() == 0 {
        0
    } else {
        ham_sum(s.drop_last()) + s.last().1.ham as nat
    }
}

/// The sum of the spam counts of all entries.
pub open spec fn spam_sum(s: Seq<(Seq<char>, Counter)>) -> nat
    decreases s.len(),
{
    if s.len() == 0 {
        0
    } else {
        spam_sum(s.drop_last()) + s.last().1.spam as nat
    }
}

/// Some entry holds the token `t`.
pub open spec fn has_token(s: Seq<(Seq<char>, Counter)>, t: Seq<char>) -> bool {
    exists|i: int| 0 <= i < s.len() && (#[trigger] s[i]).0 == t
}

/// The place of an entry that holds the token `t`.
pub open spec fn slot(s: Seq<(Seq<char>, Counter)>, t: Seq<char>) -> int {
    choose|i: int| 0 <= i < s.len() && (#[trigger] s[i]).0 == t
}

/// The counter of the token `t`, if any entry holds it.
pub open spec fn lookup_spec(s: Seq<(Seq<char>, Counter)>, t: Seq<char>) -> Option<Counter> {
    if has_token(s, t) {
        Some(s[slot(s, t)].1)
    } else {
        None
    }
}

/// The entries after one more occurrence of `t` in a spam message.
pub open spec fn bump_spam(s: Seq<(Seq<char>, Counter)>, t: Seq<char>) -> Seq<(Seq<char>, Counter)> {
    if has_token(s, t) {
        let c = s[slot(s, t)].1;
        s.update(slot(s, t), (t, Counter { ham: c.ham, spam: (c.spam + 1) as u32 }))
    } else {
        s.push((t, Counter { ham: 0, spam: 1 }))
    }
}

/// The entries after one more occurrence of `t` in a ham message.
pub open spec fn bump_ham(s: Seq<(Seq<char>, Counter)>, t: Seq<char>) -> Seq<(Seq<char>, Counter)> {
    if has_token(s, t) {
        let c = s[slot(s, t)].1;
        s.update(slot(s, t), (t, Counter { ham: (c.ham + 1) as u32, spam: c.spam }))
    } else {
        s.push((t, Counter { ham: 1, spam: 0 }))
    }
}

/// The counter of the token `t`, or the counter without counts of a token
/// that no entry holds.
pub open spec fn count_of(s: Seq<(Seq<char>, Counter)>, t: Seq<char>) -> Counter {
    match lookup_spec(s, t) {
        Some(c) => c,
        None => Counter { ham: 0, spam: 0 },
    }
}

/// Among distinct tokens the place of a token is the only one that holds it.
pub proof fn lemma_slot_is(s: Seq<(Seq<char>, Counter)>, t: Seq<char>, i: int)
    requires
        tokens_distinct(s),
        0 <= i < s.len(),
        s[i].0 == t,
    ensures
        has_token(s, t),
        slot(s, t) == i,
        lookup_spec(s, t) == Some(s[i].1),
{
    let j = slot(s, t);
    assert(0 <= j < s.len() && s[j].0 == t);
    if j < i {
        assert(s[j].0 != s[i].0);
    } else if i < j {
        assert(s[i].0 != s[j].0);
    }
}

/// Tokens that no entry holds are looked up in vain.
pub proof fn lemma_lookup_absent(s: Seq<(Seq<char>, Counter)>, t: Seq<char>)
    requires
        forall|i: int| 0 <= i < s.len() ==> (#[trigger] s[i]).0 != t,
    ensures
        !has_token(s, t),
        lookup_spec(s, t) is None,
{
}

/// Replacing the counter of one entry, or adding an entry with a new token,
/// changes what a lookup gives for that token only.
proof fn lemma_lookup_after_change(
    s: Seq<(Seq<char>, Counter)>,
    changed: Seq<(Seq<char>, Counter)>,
    t: Seq<char>,
    c: Counter,
    other: Seq<char>,
)
    requires
        tokens_distinct(s),
        if has_token(s, t) {
            changed == s.update(slot(s, t), (t, c))
        } else {
            changed == s.push((t, c))
        },
    ensures
        tokens_distinct(changed),
        lookup_spec(changed, t) == Some(c),
        other != t ==> lookup_spec(changed, other) == lookup_spec(s, other),
{
    if has_token(s, t) {
        let i = slot(s, t);
        assert(0 <= i < s.len() && s[i].0 == t);
        assert forall|a: int, b: int| 0 <= a < b < changed.len() implies (#[trigger] changed[a]).0 != (
        #[trigger] changed[b]).0 by {
            assert(changed[a].0 == s[a].0);
            assert(changed[b].0 == s[b].0);
        }
        lemma_slot_is(changed, t, i);
        if other != t {
            if has_token(s, other) {
                let j = slot(s, other);
                assert(0 <= j < s.len() && s[j].0 == other);
                assert(changed[j] == s[j]);
                lemma_slot_is(s, other, j);
                lemma_slot_is(changed, other, j);
            } else {
                assert forall|k: int| 0 <= k < changed.len() implies (#[trigger] changed[k]).0
                    != other by {
                    assert(changed[k].0 == s[k].0);
                }
                lemma_lookup_absent(changed, other);
            }
        }
    } else {
        let n = s.len() as int;
        assert forall|a: int, b: int| 0 <= a < b < changed.len() implies (#[trigger] changed[a]).0 != (
        #[trigger] changed[b]).0 by {
            assert(changed[a] == s[a]);
            if b < n {
                assert(changed[b] == s[b]);
            }
        }
        lemma_slot_is(changed, t, n);
        if other != t {
            if has_token(s, other) {
                let j = slot(s, other);
                assert(0 <= j < s.len() && s[j].0 == other);
                assert(changed[j] == s[j]);
                lemma_slot_is(s, other, j);
                lemma_slot_is(changed, other, j);
            } else {
                assert forall|k: int| 0 <= k < changed.len() implies (#[trigger] changed[k]).0
                    != other by {
                    if k < n {
                        assert(changed[k] == s[k]);
                    }
                }
                lemma_lookup_absent(changed, other);
            }
        }
    }
}

/// Counting a token as spam adds one to the spam count of that token, which
/// starts from a counter without counts, and changes no other counter.
pub proof fn lemma_bump_spam_counts(s: Seq<(Seq<char>, Counter)>, t: Seq<char>, other: Seq<char>)
    requires
        tokens_distinct(s),
    ensures
        tokens_distinct(bump_spam(s, t)),
        lookup_spec(bump_spam(s, t), t) == Some(
            Counter { ham: count_of(s, t).ham, spam: (count_of(s, t).spam + 1) as u32 },
        ),
        other != t ==> lookup_spec(bump_spam(s, t), other) == lookup_spec(s, other),
{
    let c = count_of(s, t);
    lemma_lookup_after_change(
        s,
        bump_spam(s, t),
        t,
        Counter { ham: c.ham, spam: (c.spam + 1) as u32 },
        other,
    );
}

/// Counting a token as ham adds one to the ham count of that token, which
/// starts from a counter without counts, and changes no other counter.
pub proof fn lemma_bump_ham_counts(s: Seq<(Seq<char>, Counter)>, t: Seq<char>, other: Seq<char>)
    requires
        tokens_distinct(s),
    ensures
        tokens_distinct(bump_ham(s, t)),
        lookup_spec(bump_ham(s, t), t) == Some(
            Counter { ham: (count_of(s, t).ham + 1) as u32, spam: count_of(s, t).spam },
        ),
        other != t ==> lookup_spec(bump_ham(s, t), other) == lookup_spec(s, other),
{
    let c = count_of(s, t);
    lemma_lookup_after_change(
        s,
        bump_ham(s, t),
        t,
        Counter { ham: (c.ham + 1) as u32, spam: c.spam },
        other,
    );
}

/// Replacing the counter of one entry changes each sum by the difference.
pub proof fn lemma_sums_update(s: Seq<(Seq<char>, Counter)>, i: int, e: (Seq<char>, Counter))
    requires
        0 <= i < s.len(),
    ensures
        ham_sum(s.update(i, e)) == ham_sum(s) - s[i].1.ham + e.1.ham,
        spam_sum(s.update(i, e)) == spam_sum(s) - s[i].1.spam + e.1.spam,
        s[i].1.ham <= ham_sum(s),
        s[i].1.spam <= spam_sum(s),
    decreases s.len(),
{
    let u = s.update(i, e);
    if i == s.len() - 1 {
        assert(u.drop_last() =~= s.drop_last());
    } else {
        assert(u.drop_last() =~= s.drop_last().update(i, e));
        lemma_sums_update(s.drop_last(), i, e);
    }
}

/// One more entry adds its counts to the sums.
pub proof fn lemma_sums_push(s: Seq<(Seq<char>, Counter)>, e: (Seq<char>, Counter))
    ensures
        ham_sum(s.push(e)) == ham_sum(s) + e.1.ham,
        spam_sum(s.push(e)) == spam_sum(s) + e.1.spam,
{
    assert(s.push(e).drop_last() =~= s);
}

/// A sum over a prefix is at most the sum over the whole.
pub proof fn lemma_sums_prefix(s: Seq<(Seq<char>, Counter)>, n: int)
    requires
        0 <= n <= s.len(),
    ensures
        ham_sum(s.take(n)) <= ham_sum(s),
        spam_sum(s.take(n)) <= spam_sum(s),
    decreases s.len(),
{
    if n == s.len() {
        assert(s.take(n) =~= s);
    } else {
        assert(s.drop_last().take(n) =~= s.take(n));
        lemma_sums_prefix(s.drop_last(), n);
    }
}

/// Why a handed-in table of counters is refused.
#[derive(Clone, Copy, Debug, PartialEq, Eq, Structural)]
pub enum ModelError {
    /// A token stands in more than one entry.
    DuplicateToken,
    /// The ham counts or the spam counts add up to more than `u32::MAX`.
    TotalOverflow,
}

/// The entries can be the table of a model: no token stands twice, and each
/// sum fits the counters' type.
pub open spec fn is_table(s: Seq<(Seq<char>, Counter)>) -> bool {
    &&& tokens_distinct(s)
    &&& ham_sum(s) <= u32::MAX
    &&& spam_sum(s) <= u32::MAX
}

/// What a table of counters is refused for, if it is refused.
pub open spec fn table_error(s: Seq<(Seq<char>, Counter)>) -> Option<ModelError> {
    if !tokens_distinct(s) {
        Some(ModelError::DuplicateToken)
    } else if ham_sum(s) > u32::MAX || spam_sum(s) > u32::MAX {
        Some(ModelError::TotalOverflow)
    } else {
        None
    }
}

/// The frequency model: a table from tokens to counters, in the order in
/// which the tokens were first seen, with the place of each token and the
/// two totals.
pub struct Model {
    entries: Vec<TokenCount>,
    places: StringHashMap<usize>,
    ham_total: u32,
    spam_total: u32,
}

impl View for Model {
    type V = Seq<(Seq<char>, Counter)>;

    closed spec fn view(&self) -> Seq<(Seq<char>, Counter)> {
        entry_views(self.entries@)
    }
}

impl Model {
    /// The totals that the model keeps are the sums over its table.
    pub closed spec fn totals_kept(&self) -> bool {
        &&& self.ham_total == ham_sum(self@)
        &&& self.spam_total == spam_sum(self@)
    }

    /// The places that the model keeps are those of the tokens in its table.
    pub closed spec fn places_kept(&self) -> bool {
        &&& forall|i: int|
            0 <= i < self@.len() ==> self.places@.contains_key((#[trigger] self@[i]).0)
                && self.places@[self@[i].0] == i
        &&& forall|t: Seq<char>| #[trigger]
            self.places@.contains_key(t) ==> 0 <= self.places@[t] < self@.len()
                && self@[self.places@[t] as int].0 == t
    }

    /// The model is valid.
    pub open spec fn wf(&self) -> bool {
        &&& is_table(self@)
        &&& self.totals_kept()
        &&& self.places_kept()
    }

    /// A model without entries.
    pub fn new() -> (model: Model)
        ensures
            model.wf(),
            model@ == Seq::<(Seq<char>, Counter)>::empty(),
    {
        let model = Model {
            entries: Vec::new(),
            places: StringHashMap::new(),
            ham_total: 0,
            spam_total: 0,
        };
        assert(model@ =~= Seq::<(Seq<char>, Counter)>::empty());
        model
    }

    /// The model with the given table. A table in which a token stands
    /// twice is refused, and so is one whose counts add up to more than the
    /// counters' type holds.
    pub fn from_entries(entries: Vec<TokenCount>) -> (loaded: Result<Model, ModelError>)
        ensures
            match loaded {
                Ok(model) => {
                    &&& table_error(entry_views(entries@)) is None
                    &&& model.wf()
                    &&& model@ == entry_views(entries@)
                },
                Err(e) => table_error(entry_views(entries@)) == Some(e),
            },
    {
        let ghost table = entry_views(entries@);
        let mut places: StringHashMap<usize> = StringHashMap::new();
        let mut i: usize = 0;
        while i < entries.len()
            invariant
                i <= entries.len(),
                table == entry_views(entries@),
                forall|a: int|
                    0 <= a < i ==> places@.contains_key((#[trigger] table[a]).0) && places@[table[a].0]
                        == a,
                forall|t: Seq<char>| #[trigger]
                    places@.contains_key(t) ==> 0 <= places@[t] < i && table[places@[t] as int].0
                        == t,
            decreases entries.len() - i,
        {
            if places.contains_key(entries[i].token.as_str()) {
                proof {
                    let t = table[i as int].0;
                    let j = places@[t] as int;
                    assert(table[j].0 == table[i as int].0);
                }
                return Err(ModelError::DuplicateToken);
            }
            places.insert(entries[i].token.clone(), i);
            i += 1;
        }
        proof {
            assert forall|a: int, b: int| 0 <= a < b < table.len() implies (#[trigger] table[a]).0 != (
            #[trigger] table[b]).0 by {
                if table[a].0 == table[b].0 {
                    assert(places@[table[a].0] == a);
                    assert(places@[table[b].0] == b);
                }
            }
        }
        let mut ham_total: u32 = 0;
        let mut spam_total: u32 = 0;
        let mut k: usize = 0;
        while k < entries.len()
            invariant
                k <= entries.len(),
                table == entry_views(entries@),
                tokens_distinct(table),
                forall|a: int|
                    0 <= a < table.len() ==> places@.contains_key((#[trigger] table[a]).0)
                        && places@[table[a].0] == a,
                forall|t: Seq<char>| #[trigger]
                    places@.contains_key(t) ==> 0 <= places@[t] < table.len()
                        && table[places@[t] as int].0 == t,
                ham_total == ham_sum(table.take(k as int)),
                spam_total == spam_sum(table.take(k as int)),
            decreases entries.len() - k,
        {
            proof {
                assert(table.take(k + 1) =~= table.take(k as int).push(table[k as int]));
                lemma_sums_push(table.take(k as int), table[k as int]);
                lemma_sums_prefix(table, k + 1);
            }
            let counter = entries[k].counter;
            match (ham_total.checked_add(counter.ham), spam_total.checked_add(counter.spam)) {
                (Some(ham), Some(spam)) => {
                    ham_total = ham;
                    spam_total = spam;
                },
                _ => {
                    return Err(ModelError::TotalOverflow);
                },
            }
            k += 1;
        }
        assert(table.take(k as int) =~= table);
        Ok(Model { entries, places, ham_total, spam_total })
    }

    /// The table of the model, entry by entry.
    pub fn entries(&self) -> (table: Vec<TokenCount>)
        requires
            self.wf(),
        ensures
            entry_views(table@) == self@,
            table_error(entry_views(table@)) is None,
    {
        let mut table: Vec<TokenCount> = Vec::new();
        let mut i: usize = 0;
        while i < self.entries.len()
            invariant
                i <= self.entries.len(),
                entry_views(table@) == self@.take(i as int),
            decreases self.entries.len() - i,
        {
            let ghost before = table@;
            let entry = &self.entries[i];
            let copy = TokenCount { token: entry.token.clone(), counter: entry.counter };
            assert(copy@ == self@[i as int]);
            table.push(copy);
            assert(entry_views(table@) =~= entry_views(before).push(copy@));
            i += 1;
            assert(entry_views(table@) =~= self@.take(i as int));
        }
        assert(self@.take(i as int) =~= self@);
        table
    }

    /// The place of the entry that holds `token`.
    pub fn find(&self, token: &str) -> (place: Option<usize>)
        requires
            self.wf(),
        ensures
            match place {
                Some(i) => i < self@.len() && self@[i as int].0 == token@ && slot(self@, token@) == i,
                None => true,
            },
            place is Some == has_token(self@, token@),
    {
        match self.places.get(token) {
            Some(i) => {
                proof {
                    lemma_slot_is(self@, token@, *i as int);
                }
                Some(*i)
            },
            None => None,
        }
    }

    /// The counter of `token`, if the token was ever counted.
    pub fn lookup(&self, token: &str) -> (counter: Option<Counter>)
        requires
            self.wf(),
        ensures
            counter == lookup_spec(self@, token@),
    {
        match self.find(token) {
            Some(i) => Some(self.entries[i].counter),
            None => None,
        }
    }

    /// Counts one more occurrence of `token` in a spam message. A token that
    /// was never counted gets a counter of its own first.
    pub fn increment_spam(&mut self, token: String)
        requires
            old(self).wf(),
            spam_sum(old(self)@) < u32::MAX,
        ensures
            final(self).wf(),
            final(self)@ == bump_spam(old(self)@, token@),
            has_token(final(self)@, token@),
            count_of(final(self)@, token@).spam == count_of(old(self)@, token@).spam + 1,
            count_of(final(self)@, token@).ham == count_of(old(self)@, token@).ham,
            ham_sum(final(self)@) == ham_sum(old(self)@),
            spam_sum(final(self)@) == spam_sum(old(self)@) + 1,
    {
        let ghost before = self@;
        proof {
            lemma_bump_spam_counts(before, token@, token@);
            if has_token(before, token@) {
                lemma_sums_update(before, slot(before, token@), before[slot(before, token@)]);
            }
        }
        match self.find(token.as_str()) {
            Some(i) => {
                let c = self.entries[i].counter;
                proof {
                    lemma_sums_update(
                        before,
                        i as int,
                        (token@, Counter { ham: c.ham, spam: (c.spam + 1) as u32 }),
                    );
                }
                let counter = Counter { ham: c.ham, spam: c.spam + 1 };
                self.entries.set(i, TokenCount { token, counter });
                assert(self@ =~= before.update(i as int, (token@, counter)));
            },
            None => {
                let counter = Counter { ham: 0, spam: 1 };
                self.places.insert(token.clone(), self.entries.len());
                self.entries.push(TokenCount { token, counter });
                proof {
                    lemma_sums_push(before, (token@, counter));
                }
                assert(self@ =~= before.push((token@, counter)));
            },
        }
        self.spam_total = self.spam_total + 1;
    }

    /// Counts one more occurrence of `token` in a ham message. A token that
    /// was never counted gets a counter of its own first.
    pub fn increment_ham(&mut self, token: String)
        requires
            old(self).wf(),
            ham_sum(old(self)@) < u32::MAX,
        ensures
            final(self).wf(),
            final(self)@ == bump_ham(old(self)@, token@),
            has_token(final(self)@, token@),
            count_of(final(self)@, token@).ham == count_of(old(self)@, token@).ham + 1,
            count_of(final(self)@, token@).spam == count_of(old(self)@, token@).spam,
            ham_sum(final(self)@) == ham_sum(old(self)@) + 1,
            spam_sum(final(self)@) == spam_sum(old(self)@),
    {
        let ghost before = self@;
        proof {
            lemma_bump_ham_counts(before, token@, token@);
            if has_token(before, token@) {
                lemma_sums_update(before, slot(before, token@), before[slot(before, token@)]);
            }
        }
        match self.find(token.as_str()) {
            Some(i) => {
                let c = self.entries[i].counter;
                proof {
                    lemma_sums_update(
                        before,
                        i as int,
                        (token@, Counter { ham: (c.ham + 1) as u32, spam: c.spam }),
                    );
                }
                let counter = Counter { ham: c.ham + 1, spam: c.spam };
                self.entries.set(i, TokenCount { token, counter });
                assert(self@ =~= before.update(i as int, (token@, counter)));
            },
            None => {
                let counter = Counter { ham: 1, spam: 0 };
                self.places.insert(token.clone(), self.entries.len());
                self.entries.push(TokenCount { token, counter });
                proof {
                    lemma_sums_push(before, (token@, counter));
                }
                assert(self@ =~= before.push((token@, counter)));
            },
        }
        self.ham_total = self.ham_total + 1;
    }

    /// The sum of the ham counts of all tokens.
    pub fn ham_total(&self) -> (total: u32)
        requires
            self.wf(),
        ensures
            total == ham_sum(self@),
    {
        self.ham_total
    }

    /// The sum of the spam counts of all tokens.
    pub fn spam_total(&self) -> (total: u32)
        requires
            self.wf(),
        ensures
            total == spam_sum(self@),
    {
        self.spam_total
    }
}

} // verus!
