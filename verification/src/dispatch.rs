//! From a line that was typed to the command that it calls.
use vstd::prelude::*;

verus! {

/// What a command is called.
#[derive(Debug)]
pub struct CommandNames {
    pub name: String,
    pub aliases: Vec<String>,
}

/// What a [`CommandNames`] holds.
#[verifier::ext_equal]
pub ghost struct NamesView {
    pub name: Seq<char>,
    pub aliases: Seq<Seq<char>>,
}

/// What each of a sequence of words holds.
pub open spec fn word_views(words: Seq<String>) -> Seq<Seq<char>> {
    Seq::new(words.len(), |i: int| words[i]@)
}

impl View for CommandNames {
    type V = NamesView;

    open spec fn view(&self) -> NamesView {
        NamesView { name: self.name@, aliases: word_views(self.aliases@) }
    }
}

/// What each of a sequence of commands is called.
pub open spec fn names_views(commands: Seq<CommandNames>) -> Seq<NamesView> {
    Seq::new(commands.len(), |i: int| commands[i]@)
}

impl NamesView {
    /// Whether the command answers to `word`: it is its name, or one of its aliases.
    pub open spec fn answers_to(self, word: Seq<char>) -> bool {
        self.name == word || self.aliases.contains(word)
    }
}

/// Whether command `i` is the first that answers to `word`.
pub open spec fn is_command(commands: Seq<NamesView>, word: Seq<char>, i: int) -> bool {
    &&& 0 <= i < commands.len()
    &&& commands[i].answers_to(word)
    &&& forall|j: int| 0 <= j < i ==> !(#[trigger] commands[j]).answers_to(word)
}

/// Whether no command answers to `word`.
pub open spec fn is_unknown(commands: Seq<NamesView>, word: Seq<char>) -> bool {
    forall|j: int| 0 <= j < commands.len() ==> !(#[trigger] commands[j]).answers_to(word)
}

impl CommandNames {
    /// Whether the command answers to `word`.
    pub fn answers_to(&self, word: &String) -> (res: bool)
        ensures
            res == self@.answers_to(word@),
    {
        if self.name == *word {
            return true;
        }
        let mut i: usize = 0;
        while i < self.aliases.len()
            invariant
                i <= self.aliases@.len(),
                self.name@ != word@,
                forall|j: int| 0 <= j < i ==> (#[trigger] self.aliases@[j])@ != word@,
            decreases self.aliases@.len() - i,
        {
            if self.aliases[i] == *word {
                assert(self@.aliases[i as int] == word@);
                return true;
            }
            i = i + 1;
        }
        assert(!self@.aliases.contains(word@));
        false
    }
}

/// The first command that answers to `word`.
pub fn find_command(commands: &Vec<CommandNames>, word: &String) -> (res: Option<usize>)
    ensures
        match res {
            Some(i) => is_command(names_views(commands@), word@, i as int),
            None => is_unknown(names_views(commands@), word@),
        },
{
    let ghost views = names_views(commands@);
    let mut i: usize = 0;
    while i < commands.len()
        invariant
            i <= commands@.len(),
            views == names_views(commands@),
            forall|j: int| 0 <= j < i ==> !(#[trigger] views[j]).answers_to(word@),
        decreases commands@.len() - i,
    {
        assert(views[i as int] == commands@[i as int]@);
        if commands[i].answers_to(word) {
            return Some(i);
        }
        i = i + 1;
    }
    None
}

/// The first command whose name is `name`. Aliases do not count.
pub fn find_by_name(commands: &Vec<CommandNames>, name: &String) -> (res: Option<usize>)
    ensures
        match res {
            Some(i) => {
                &&& i < commands@.len()
                &&& commands@[i as int].name@ == name@
                &&& forall|j: int| 0 <= j < i ==> (#[trigger] commands@[j]).name@ != name@
            },
            None => forall|j: int|
                0 <= j < commands@.len() ==> (#[trigger] commands@[j]).name@ != name@,
        },
{
    let mut i: usize = 0;
    while i < commands.len()
        invariant
            i <= commands@.len(),
            forall|j: int| 0 <= j < i ==> (#[trigger] commands@[j]).name@ != name@,
        decreases commands@.len() - i,
    {
        if commands[i].name == *name {
            return Some(i);
        }
        i = i + 1;
    }
    None
}

/// What a line calls for.
#[derive(Debug)]
pub enum Dispatch {
    /// Nothing: the line is empty.
    Nothing,
    /// The command with this number, on these words. The first is what it was called by.
    Run { command: usize, words: Vec<String> },
    /// A command that there is not, as this message says.
    Unknown(String),
    /// The line cannot be parted into words, as this message says.
    Malformed(String),
}

/// The message that no command answers to `word`.
pub open spec fn not_found(word: Seq<char>) -> Seq<char> {
    "Command '"@ + word + "' not found"@
}

/// Whether this is what words call for: nothing if there are none, and else the first
/// command that answers to the first word.
pub open spec fn is_called_for(
    commands: Seq<NamesView>,
    words: Seq<Seq<char>>,
    dispatch: Dispatch,
) -> bool {
    if words.len() == 0 {
        dispatch is Nothing
    } else if is_unknown(commands, words[0]) {
        dispatch matches Dispatch::Unknown(message) && message@ == not_found(words[0])
    } else {
        dispatch matches Dispatch::Run { command, words: passed } && is_command(
            commands,
            words[0],
            command as int,
        ) && word_views(passed@) == words
    }
}

/// Finds the command that words call for.
pub fn dispatch_words(commands: &Vec<CommandNames>, words: Vec<String>) -> (res: Dispatch)
    ensures
        is_called_for(names_views(commands@), word_views(words@), res),
{
    if words.len() == 0 {
        return Dispatch::Nothing;
    }
    assert(word_views(words@)[0] == words@[0]@);
    match find_command(commands, &words[0]) {
        Some(command) => {
            assert(names_views(commands@)[command as int].answers_to(words@[0]@));
            Dispatch::Run { command, words }
        },
        None => Dispatch::Unknown(
            crate::text::enclose("Command '", words[0].as_str(), "' not found"),
        ),
    }
}

/// Why a line cannot be parted into words.
#[verifier::external_type_specification]
#[verifier::external_body]
pub struct ExParseError(shell_words::ParseError);

/// The words that a line is parted into as a shell does it, unless a quote in it is not
/// closed.
pub uninterp spec fn shell_split(line: Seq<char>) -> Option<Seq<Seq<char>>>;

/// Parts a line into words with [`shell_words::split`].
///
/// Claimed of it: the words, and whether there are any, depend on nothing but the line.
/// How quotes, backslashes and comments are read is left to the crate.
#[verifier::external_body]
fn split_words(line: &str) -> (res: Result<Vec<String>, shell_words::ParseError>)
    ensures
        match res {
            Ok(words) => shell_split(line@) == Some(word_views(words@)),
            Err(_) => shell_split(line@) is None,
        },
{
    shell_words::split(line)
}

/// Says why a line cannot be parted into words, as [`shell_words::ParseError`] displays
/// itself.
///
/// Claimed of it: there is one reason, and this is its text.
#[verifier::external_body]
fn parse_error_text(error: &shell_words::ParseError) -> (res: String)
    ensures
        res@ == "missing closing quote"@,
{
    error.to_string()
}

/// Finds the command that a line calls for.
pub fn dispatch(commands: &Vec<CommandNames>, line: &str) -> (res: Dispatch)
    ensures
        match shell_split(line@) {
            Some(words) => is_called_for(names_views(commands@), words, res),
            None => res matches Dispatch::Malformed(message) && message@
                == "Failed to parse command: "@ + "missing closing quote"@,
        },
{
    match split_words(line) {
        Ok(words) => dispatch_words(commands, words),
        Err(error) => {
            let mut message = "Failed to parse command: ".to_owned();
            message.append(parse_error_text(&error).as_str());
            Dispatch::Malformed(message)
        },
    }
}

} // verus!
