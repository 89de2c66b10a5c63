//! What a command decides before and after it asks the processor: which
//! containers it is scoped to, whether its parameters are in range, and how
//! it names its options in its answer.

use crate::processor::ngram::views;
use crate::text::same_text;
use vstd::prelude::*;

verus! {

/// What a command is scoped to.
#[derive(Debug, Clone, Copy, PartialEq, Eq, Structural)]
pub enum Scope {
    /// The channel that the command came from.
    Channel,
    /// The guild of that channel.
    Server,
    /// The platform as a whole.
    Discord,
    /// Every container.
    All,
}

/// The scope that a word names, if it names one.
pub open spec fn scope_named(word: Seq<char>) -> Option<Scope> {
    if word == "channel"@ {
        Some(Scope::Channel)
    } else if word == "server"@ {
        Some(Scope::Server)
    } else if word == "discord"@ {
        Some(Scope::Discord)
    } else if word == "all"@ {
        Some(Scope::All)
    } else {
        None
    }
}

/// The containers of a scope, or the message that says why it has none: a
/// command that came by direct message has no guild.
pub open spec fn containers_of(
    scope: Scope,
    channel_id: Seq<char>,
    guild_id: Option<Seq<char>>,
) -> Result<Seq<Seq<char>>, Seq<char>> {
    match scope {
        Scope::Channel => Ok(seq![channel_id]),
        Scope::Server => match guild_id {
            Some(guild) => Ok(seq![guild]),
            None => Err("You can't use the `server` container in a DM!"@),
        },
        Scope::Discord => Ok(seq!["discord"@]),
        Scope::All => Ok(Seq::empty()),
    }
}

/// The containers that a command is scoped to. The scope is named by a
/// word, and without a word it is the guild.
pub open spec fn scope_of(
    channel_id: Seq<char>,
    guild_id: Option<Seq<char>>,
    container_context: Option<Seq<char>>,
) -> Result<Seq<Seq<char>>, Seq<char>> {
    match container_context {
        None => containers_of(Scope::Server, channel_id, guild_id),
        Some(word) => match scope_named(word) {
            Some(scope) => containers_of(scope, channel_id, guild_id),
            None => Err(
                "The container you specified was neither `channel`, `server`, `discord` nor `all`"@,
            ),
        },
    }
}

/// Whether `ids` are the containers of a scope, or the message that says why
/// there are none.
pub open spec fn is_scope(
    wanted: Result<Seq<Seq<char>>, Seq<char>>,
    ids: Result<Vec<String>, String>,
) -> bool {
    match (wanted, ids) {
        (Ok(listed), Ok(found)) => views(found@) == listed,
        (Err(message), Err(said)) => said@ == message,
        _ => false,
    }
}

/// The text of an optional word.
pub open spec fn word_of(word: Option<&str>) -> Option<Seq<char>> {
    match word {
        Some(text) => Some(text@),
        None => None,
    }
}

/// The text of an optional string.
pub open spec fn string_of(word: Option<String>) -> Option<Seq<char>> {
    match word {
        Some(text) => Some(text@),
        None => None,
    }
}

impl Scope {
    /// Reads a scope from the word that names it: `channel`, `server`,
    /// `discord` or `all`.
    pub fn from_word(word: &str) -> (scope: Option<Scope>)
        ensures
            scope == scope_named(word@),
    {
        if same_text(word, "channel") {
            Some(Scope::Channel)
        } else if same_text(word, "server") {
            Some(Scope::Server)
        } else if same_text(word, "discord") {
            Some(Scope::Discord)
        } else if same_text(word, "all") {
            Some(Scope::All)
        } else {
            None
        }
    }

    /// The containers of the scope, for a command that came from the given
    /// channel of the given guild.
    pub fn container_ids(self, channel_id: &str, guild_id: Option<&str>) -> (ids: Result<
        Vec<String>,
        String,
    >)
        ensures
            is_scope(containers_of(self, channel_id@, word_of(guild_id)), ids),
    {
        let mut ids: Vec<String> = Vec::new();
        match self {
            Scope::Channel => {
                ids.push(channel_id.to_owned());
                assert(views(ids@) =~= seq![channel_id@]);
                Ok(ids)
            },
            Scope::Server => match guild_id {
                Some(guild) => {
                    ids.push(guild.to_owned());
                    assert(views(ids@) =~= seq![guild@]);
                    Ok(ids)
                },
                None => Err(String::from_str("You can't use the `server` container in a DM!")),
            },
            Scope::Discord => {
                ids.push(String::from_str("discord"));
                assert(views(ids@) =~= seq!["discord"@]);
                Ok(ids)
            },
            Scope::All => {
                assert(views(ids@) =~= Seq::<Seq<char>>::empty());
                Ok(ids)
            },
        }
    }
}

/// The containers that a command is scoped to.
pub fn get_container_ids_from_context(
    channel_id: &str,
    guild_id: Option<&str>,
    container_context: &Option<String>,
) -> (ids: Result<Vec<String>, String>)
    ensures
        is_scope(scope_of(channel_id@, word_of(guild_id), string_of(*container_context)), ids),
{
    let scope: Option<Scope> = match container_context {
        Some(word) => Scope::from_word(word.as_str()),
        None => Some(Scope::Server),
    };
    match scope {
        Some(scope) => scope.container_ids(channel_id, guild_id),
        None => Err(
            String::from_str(
                "The container you specified was neither `channel`, `server`, `discord` nor `all`",
            ),
        ),
    }
}

/// Whether a ranking can be asked for n-grams of this length: of any, or of
/// 1 to 5 words.
pub fn is_ngram_length(length: Option<u32>) -> (valid: bool)
    ensures
        valid == match length {
            Some(words) => 1 <= words <= 5,
            None => true,
        },
{
    match length {
        Some(words) => 1 <= words && words <= 5,
        None => true,
    }
}

/// An option of a command as its answer names it: the option's name, what
/// was given for it, and whether that is shown as code.
pub struct OptionText {
    pub name: Seq<char>,
    pub description: Seq<char>,
    pub code_block: bool,
}

/// What an option holds.
pub open spec fn option_text_of(option: (&str, String, bool)) -> OptionText {
    OptionText { name: option.0@, description: option.1@, code_block: option.2 }
}

/// The options that were given, in order.
pub open spec fn given(options: Seq<Option<(&str, String, bool)>>) -> Seq<OptionText>
    decreases options.len(),
{
    if options.len() == 0 {
        Seq::empty()
    } else {
        match options.last() {
            Some(option) => given(options.drop_last()).push(option_text_of(option)),
            None => given(options.drop_last()),
        }
    }
}

/// Whether text `a` comes before text `b` from character `from` on, where
/// they are the same up to there: at the first character in which they
/// differ `a` has the lesser, or `a` ends first.
pub open spec fn text_before_from(a: Seq<char>, b: Seq<char>, from: int) -> bool
    decreases b.len() - from,
{
    if from >= b.len() {
        false
    } else if from >= a.len() {
        true
    } else if a[from] != b[from] {
        a[from] < b[from]
    } else {
        text_before_from(a, b, from + 1)
    }
}

/// Whether text `a` comes before text `b` in the order of a dictionary.
pub open spec fn text_before(a: Seq<char>, b: Seq<char>) -> bool {
    text_before_from(a, b, 0)
}

/// Whether option `a` comes before option `b`: by name, then by what was
/// given, and at last the one that is not shown as code first.
pub open spec fn option_before(a: OptionText, b: OptionText) -> bool {
    ||| text_before(a.name, b.name)
    ||| a.name == b.name && text_before(a.description, b.description)
    ||| a.name == b.name && a.description == b.description && !a.code_block && b.code_block
}

/// Whether no option of the list comes before an earlier one.
pub open spec fn in_order(options: Seq<OptionText>) -> bool {
    forall|i: int, j: int|
        0 <= i < j < options.len() ==> !option_before(#[trigger] options[j], #[trigger] options[i])
}

/// What stands between option `i` of `n` and the next: a comma, `and`
/// before the last, nothing after the last.
pub open spec fn separator(i: int, n: int) -> Seq<char> {
    if n < 2 || i > n - 2 {
        Seq::empty()
    } else if i < n - 2 {
        ", "@
    } else {
        " and "@
    }
}

/// How an option is named: its name and what was given for it, the latter
/// between backticks where it is shown as code.
pub open spec fn option_words(option: OptionText) -> Seq<char> {
    if option.code_block {
        option.name + " `"@ + option.description + "`"@
    } else {
        option.name + " "@ + option.description
    }
}

/// How the first `k` options of a list are named.
pub open spec fn options_text_upto(options: Seq<OptionText>, k: int) -> Seq<char>
    decreases k,
{
    if k <= 0 {
        Seq::empty()
    } else {
        options_text_upto(options, k - 1) + option_words(options[k - 1]) + separator(
            k - 1,
            options.len() as int,
        )
    }
}

/// How a list of options is named.
pub open spec fn options_text(options: Seq<OptionText>) -> Seq<char> {
    options_text_upto(options, options.len() as int)
}

/// Where `a` comes before `b` and `b` before `c`, `a` comes before `c`.
pub proof fn lemma_text_before_transitive(a: Seq<char>, b: Seq<char>, c: Seq<char>, from: int)
    requires
        0 <= from,
        text_before_from(a, b, from),
        text_before_from(b, c, from),
    ensures
        text_before_from(a, c, from),
    decreases c.len() - from,
{
    if from < a.len() && from < b.len() && from < c.len() && a[from] == b[from] && b[from]
        == c[from] {
        lemma_text_before_transitive(a, b, c, from + 1);
    }
}

/// No text comes before itself.
pub proof fn lemma_text_before_irreflexive(a: Seq<char>, from: int)
    requires
        0 <= from,
    ensures
        !text_before_from(a, a, from),
    decreases a.len() - from,
{
    if from < a.len() {
        lemma_text_before_irreflexive(a, from + 1);
    }
}

/// Where `a` comes before `b` and `b` before `c`, `a` comes before `c`.
pub proof fn lemma_option_before_transitive(a: OptionText, b: OptionText, c: OptionText)
    requires
        option_before(a, b),
        option_before(b, c),
    ensures
        option_before(a, c),
{
    if text_before(a.name, b.name) {
        if text_before(b.name, c.name) {
            lemma_text_before_transitive(a.name, b.name, c.name, 0);
        }
    } else if text_before(b.name, c.name) {
    } else if text_before(a.description, b.description) {
        if text_before(b.description, c.description) {
            lemma_text_before_transitive(a.description, b.description, c.description, 0);
        }
    }
}

/// Whether text `a` comes before text `b` in the order of a dictionary.
pub fn comes_before(a: &str, b: &str) -> (before: bool)
    ensures
        before == text_before(a@, b@),
{
    let a_length: usize = a.unicode_len();
    let b_length: usize = b.unicode_len();
    let mut i: usize = 0;
    loop
        invariant
            a_length == a@.len(),
            b_length == b@.len(),
            i <= a_length,
            i <= b_length,
            text_before(a@, b@) == text_before_from(a@, b@, i as int),
        decreases b_length - i,
    {
        if i >= b_length {
            return false;
        }
        if i >= a_length {
            return true;
        }
        let x: char = a.get_char(i);
        let y: char = b.get_char(i);
        if x != y {
            return x < y;
        }
        i = i + 1;
    }
}

/// Whether option `a` comes before option `b`.
fn stands_first(a: &(&str, String, bool), b: &(&str, String, bool)) -> (before: bool)
    ensures
        before == option_before(option_text_of(*a), option_text_of(*b)),
{
    if comes_before(a.0, b.0) {
        return true;
    }
    if !same_text(a.0, b.0) {
        return false;
    }
    if comes_before(a.1.as_str(), b.1.as_str()) {
        return true;
    }
    if !same_text(a.1.as_str(), b.1.as_str()) {
        return false;
    }
    !a.2 && b.2
}

/// The texts of a list of options.
pub open spec fn option_texts(options: Seq<(&str, String, bool)>) -> Seq<OptionText> {
    Seq::new(options.len(), |i: int| option_text_of(options[i]))
}

/// Names the options that were given to a command, for its answer: in the
/// order of their names, with commas between them and `and` before the last.
pub fn get_options_text(options: Vec<Option<(&str, String, bool)>>) -> (text: String)
    ensures
        exists|listed: Seq<OptionText>|
            #[trigger] listed.to_multiset() == given(options@).to_multiset() && in_order(listed)
                && text@ == options_text(listed),
{
    let mut sorted: Vec<(&str, String, bool)> = Vec::new();
    let mut i: usize = 0;
    assert(options@.take(0) =~= Seq::<Option<(&str, String, bool)>>::empty());
    assert(option_texts(sorted@) =~= Seq::<OptionText>::empty());
    while i < options.len()
        invariant
            i <= options@.len(),
            option_texts(sorted@).to_multiset() == given(options@.take(i as int)).to_multiset(),
            in_order(option_texts(sorted@)),
        decreases options@.len() - i,
    {
        proof {
            assert(options@.take(i as int + 1).drop_last() =~= options@.take(i as int));
            assert(options@.take(i as int + 1).last() == options@[i as int]);
        }
        match &options[i] {
            Some(option) => {
                let item: (&str, String, bool) = (option.0, option.1.clone(), option.2);
                let ghost listed = option_texts(sorted@);
                let ghost new = option_text_of(item);
                assert(new == option_text_of(*option));
                let mut at: usize = 0;
                while at < sorted.len() && !stands_first(&item, &sorted[at])
                    invariant
                        at <= sorted@.len(),
                        listed == option_texts(sorted@),
                        new == option_text_of(item),
                        forall|j: int| 0 <= j < at ==> !option_before(new, #[trigger] listed[j]),
                    decreases sorted@.len() - at,
                {
                    at = at + 1;
                }
                proof {
                    let grown = listed.insert(at as int, new);
                    assert(option_texts(sorted@.insert(at as int, item)) =~= grown);
                    vstd::seq_lib::to_multiset_insert(listed, at as int, new);
                    vstd::seq_lib::to_multiset_build(given(options@.take(i as int)), new);
                    assert forall|a: int, b: int| 0 <= a < b < grown.len() implies !option_before(
                        #[trigger] grown[b],
                        #[trigger] grown[a],
                    ) by {
                        if b == at {
                            assert(grown[a] == listed[a]);
                        } else if a == at {
                            assert(grown[b] == listed[b - 1]);
                            assert(option_before(new, listed[at as int]));
                            if b - 1 > at {
                                assert(!option_before(listed[b - 1], listed[at as int]));
                            }
                            if option_before(listed[b - 1], new) {
                                lemma_option_before_transitive(
                                    listed[b - 1],
                                    new,
                                    listed[at as int],
                                );
                                if b - 1 == at {
                                    lemma_text_before_irreflexive(listed[at as int].name, 0);
                                    lemma_text_before_irreflexive(
                                        listed[at as int].description,
                                        0,
                                    );
                                }
                            }
                        } else {
                            let a0 = if a < at {
                                a
                            } else {
                                a - 1
                            };
                            let b0 = if b < at {
                                b
                            } else {
                                b - 1
                            };
                            assert(grown[a] == listed[a0] && grown[b] == listed[b0]);
                        }
                    }
                }
                sorted.insert(at, item);
            },
            None => {},
        }
        i = i + 1;
    }
    assert(options@.take(i as int) =~= options@);
    let ghost listed = option_texts(sorted@);
    let count: usize = sorted.len();
    let mut text: String = String::new();
    let mut k: usize = 0;
    while k < count
        invariant
            k <= count,
            count == sorted@.len(),
            listed == option_texts(sorted@),
            text@ == options_text_upto(listed, k as int),
        decreases count - k,
    {
        let ghost before = text@;
        text.append(sorted[k].0);
        if sorted[k].2 {
            text.append(" `");
            text.append(sorted[k].1.as_str());
            text.append("`");
        } else {
            text.append(" ");
            text.append(sorted[k].1.as_str());
        }
        assert(text@ =~= before + option_words(listed[k as int]));
        if count >= 2 {
            if k < count - 2 {
                text.append(", ");
            } else if k == count - 2 {
                text.append(" and ");
            }
        }
        assert(text@ =~= before + option_words(listed[k as int]) + separator(
            k as int,
            count as int,
        ));
        k = k + 1;
    }
    text
}

} // verus!
