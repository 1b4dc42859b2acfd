//! Aliases, their names and commands, and the definition lines they are read from.

use crate::pattern::{is_identifier, is_name_char, regex_is_match, regex_verdict};
use crate::text::{chars_of, join, lemma_join_push};
use vstd::prelude::*;

verus! {

/// Why a definition line, a name or a command was not accepted.
#[derive(Debug, PartialEq, Eq)]
pub enum AliasError {
    /// The line has not the shape `name='command'` or `name="command"`.
    ParseError(String),
    /// The name is empty or holds a character that no name may hold.
    InvalidName(String),
    /// The command is not acceptable. No command is refused at present.
    InvalidCommand(String),
    /// The command leads into aliases that refer back to themselves.
    ExpandAlias(String),
}

/// An `AliasError` with the text it carries as a sequence of characters.
pub enum AliasErrorView {
    ParseError(Seq<char>),
    InvalidName(Seq<char>),
    InvalidCommand(Seq<char>),
    ExpandAlias(Seq<char>),
}

impl View for AliasError {
    type V = AliasErrorView;

    open spec fn view(&self) -> AliasErrorView {
        match self {
            AliasError::ParseError(line) => AliasErrorView::ParseError(line@),
            AliasError::InvalidName(name) => AliasErrorView::InvalidName(name@),
            AliasError::InvalidCommand(command) => AliasErrorView::InvalidCommand(command@),
            AliasError::ExpandAlias(command) => AliasErrorView::ExpandAlias(command@),
        }
    }
}

impl Clone for AliasError {
    fn clone(&self) -> (copy: Self)
        ensures
            copy == *self,
    {
        match self {
            AliasError::ParseError(line) => AliasError::ParseError(line.clone()),
            AliasError::InvalidName(name) => AliasError::InvalidName(name.clone()),
            AliasError::InvalidCommand(command) => AliasError::InvalidCommand(command.clone()),
            AliasError::ExpandAlias(command) => AliasError::ExpandAlias(command.clone()),
        }
    }
}

/// The name of an alias: never empty, and made of ASCII letters, ASCII
/// digits and `_` alone.
#[derive(Debug)]
pub struct Name(String);

/// The command an alias stands for: any text.
#[derive(Debug)]
pub struct Command(String);

/// A value that wraps a `T` and is made from a `U` that passes validation.
pub trait NewType<T, U>: Sized {
    /// Makes the value of `value`, or says why `value` is not accepted.
    fn new(value: U) -> Result<Self, AliasError>;

    /// What the value wraps.
    fn get(&self) -> &T;
}

impl View for Name {
    type V = Seq<char>;

    closed spec fn view(&self) -> Seq<char> {
        self.0@
    }
}

impl View for Command {
    type V = Seq<char>;

    closed spec fn view(&self) -> Seq<char> {
        self.0@
    }
}

impl Name {
    #[verifier::type_invariant]
    spec fn well_formed(self) -> bool {
        is_identifier(self.0@)
    }
}

impl NewType<String, &str> for Name {
    /// The text of the name, which is always an identifier.
    fn get(&self) -> (inner: &String)
        ensures
            inner@ == self@,
            is_identifier(self@),
    {
        proof {
            use_type_invariant(self);
        }
        &self.0
    }

    /// Makes a name of `name` where it is an identifier, and refuses it as
    /// an invalid name where it is not.
    fn new(name: &str) -> (made: Result<Self, AliasError>)
        ensures
            match made {
                Ok(made_name) => is_identifier(name@) && made_name@ == name@,
                Err(error) => !is_identifier(name@) && error@ == AliasErrorView::InvalidName(
                    name@,
                ),
            },
    {
        if name.is_empty() {
            return Err(AliasError::InvalidName(String::from_str(name)));
        }
        match regex_is_match("^[A-Za-z0-9_]+$", name) {
            Some(true) => Ok(Name(String::from_str(name))),
            _ => Err(AliasError::InvalidName(String::from_str(name))),
        }
    }
}

impl NewType<String, &str> for Command {
    /// The text of the command.
    fn get(&self) -> (inner: &String)
        ensures
            inner@ == self@,
    {
        &self.0
    }

    /// Makes a command of `command`, whatever it holds.
    fn new(command: &str) -> (made: Result<Self, AliasError>)
        ensures
            made is Ok,
            made->Ok_0@ == command@,
    {
        Ok(Command(String::from_str(command)))
    }
}

impl Clone for Name {
    fn clone(&self) -> (copy: Self)
        ensures
            copy == *self,
    {
        proof {
            use_type_invariant(self);
        }
        Name(self.0.clone())
    }
}

impl Clone for Command {
    fn clone(&self) -> (copy: Self)
        ensures
            copy == *self,
    {
        Command(self.0.clone())
    }
}

impl PartialEq for Name {
    fn eq(&self, other: &Self) -> (same: bool) {
        self.0 == other.0
    }
}

impl vstd::std_specs::cmp::PartialEqSpecImpl for Name {
    open spec fn obeys_eq_spec() -> bool {
        true
    }

    open spec fn eq_spec(&self, other: &Self) -> bool {
        self@ == other@
    }
}

impl Eq for Name {}

impl PartialEq for Command {
    fn eq(&self, other: &Self) -> (same: bool) {
        self.0 == other.0
    }
}

impl vstd::std_specs::cmp::PartialEqSpecImpl for Command {
    open spec fn obeys_eq_spec() -> bool {
        true
    }

    open spec fn eq_spec(&self, other: &Self) -> bool {
        self@ == other@
    }
}

impl Eq for Command {}

/// A name and the command it stands for.
#[derive(Debug, PartialEq)]
pub struct Alias {
    pub name: Name,
    pub command: Command,
}

/// An alias as two sequences of characters.
pub struct AliasView {
    pub name: Seq<char>,
    pub command: Seq<char>,
}

impl View for Alias {
    type V = AliasView;

    open spec fn view(&self) -> AliasView {
        AliasView { name: self.name@, command: self.command@ }
    }
}

impl Clone for Alias {
    fn clone(&self) -> (copy: Self)
        ensures
            copy == *self,
    {
        Alias { name: self.name.clone(), command: self.command.clone() }
    }
}

impl From<&Alias> for Name {
    fn from(value: &Alias) -> (name: Self) {
        value.name.clone()
    }
}

impl vstd::std_specs::convert::FromSpecImpl<&Alias> for Name {
    open spec fn obeys_from_spec() -> bool {
        true
    }

    open spec fn from_spec(value: &Alias) -> Self {
        value.name
    }
}

impl From<&Alias> for Command {
    fn from(value: &Alias) -> (command: Self) {
        value.command.clone()
    }
}

impl vstd::std_specs::convert::FromSpecImpl<&Alias> for Command {
    open spec fn obeys_from_spec() -> bool {
        true
    }

    open spec fn from_spec(value: &Alias) -> Self {
        value.command
    }
}

/// The aliases of a list, each as two sequences of characters.
pub open spec fn alias_views(aliases: Seq<Alias>) -> Seq<AliasView> {
    aliases.map_values(|alias: Alias| alias@)
}

/// The pattern that the regular-expression engine holds a definition line
/// against: word characters, `=`, a quote, anything, and that quote again.
pub open spec fn definition_pattern() -> Seq<char> {
    "^\\w+=('|\").*\\1$"@
}

/// The first position at or after `from` that holds `=`, or the length of
/// `line` where none follows.
pub open spec fn equals_sign(line: Seq<char>, from: int) -> int
    decreases line.len() - from,
{
    if 0 <= from < line.len() && line[from] != '=' {
        equals_sign(line, from + 1)
    } else {
        from
    }
}

/// The two characters that may enclose a command.
pub open spec fn is_quote(c: char) -> bool {
    c == '\'' || c == '"'
}

/// `line` holds a `=`, a quote right after the first one and, further on,
/// the same quote as its last character.
pub open spec fn is_quoted_definition(line: Seq<char>) -> bool {
    let eq = equals_sign(line, 0);
    &&& eq + 2 < line.len()
    &&& is_quote(line[eq + 1])
    &&& line.last() == line[eq + 1]
}

/// What stands before the first `=` of `line`.
pub open spec fn name_part(line: Seq<char>) -> Seq<char> {
    line.subrange(0, equals_sign(line, 0))
}

/// What stands between the quote after the first `=` of `line` and the last
/// character of `line`. A quote in between belongs to it.
pub open spec fn command_part(line: Seq<char>) -> Seq<char> {
    line.subrange(equals_sign(line, 0) + 2, line.len() - 1)
}

/// What a definition line is read as, given whether the regular-expression
/// engine found the shape of a definition in it.
pub open spec fn parse_definition(line: Seq<char>, shaped: bool) -> Result<
    AliasView,
    AliasErrorView,
> {
    if !shaped || !is_quoted_definition(line) {
        Err(AliasErrorView::ParseError(line))
    } else if !is_identifier(name_part(line)) {
        Err(AliasErrorView::InvalidName(name_part(line)))
    } else {
        Ok(AliasView { name: name_part(line), command: command_part(line) })
    }
}

/// An alias as a definition line: the name, `=`, and the command between
/// single quotes.
pub open spec fn render(alias: AliasView) -> Seq<char> {
    alias.name + seq!['=', '\''] + alias.command + seq!['\'']
}

/// The outcome of reading a definition line, as sequences of characters.
pub open spec fn parsed_view(parsed: Result<Alias, AliasError>) -> Result<
    AliasView,
    AliasErrorView,
> {
    match parsed {
        Ok(alias) => Ok(alias@),
        Err(error) => Err(error@),
    }
}

/// The first position of `line` that holds `=`.
fn find_equals_sign(line: &Vec<char>) -> (at: usize)
    ensures
        at == equals_sign(line@, 0),
        at <= line.len(),
{
    let mut at: usize = 0;
    while at < line.len() && line[at] != '='
        invariant
            at <= line.len(),
            equals_sign(line@, at as int) == equals_sign(line@, 0),
        decreases line.len() - at,
    {
        at += 1;
    }
    at
}

impl Alias {
    /// Tells whether the regular-expression engine finds the shape of a
    /// definition in `maybe_alias`. Where the engine gives no answer, the
    /// line counts as one without that shape.
    pub fn is_valid(maybe_alias: &str) -> (valid: bool)
        ensures
            valid == (regex_verdict(definition_pattern(), maybe_alias@) == Some(true)),
    {
        match regex_is_match("^\\w+=('|\").*\\1$", maybe_alias) {
            Some(found) => found,
            None => false,
        }
    }

    /// Reads the definition line `maybe_alias`, given in `shaped` whether
    /// the regular-expression engine found the shape of a definition in it.
    ///
    /// The name is what stands before the first `=`, the command what stands
    /// between the quote that follows it and the last character of the line.
    pub fn from_shaped(maybe_alias: &str, shaped: bool) -> (parsed: Result<Alias, AliasError>)
        ensures
            parsed_view(parsed) == parse_definition(maybe_alias@, shaped),
    {
        if !shaped {
            return Err(AliasError::ParseError(String::from_str(maybe_alias)));
        }
        let line = chars_of(maybe_alias);
        let len = line.len();
        let eq = find_equals_sign(&line);
        if len - eq <= 2 {
            return Err(AliasError::ParseError(String::from_str(maybe_alias)));
        }
        let quote = line[eq + 1];
        if !(quote == '\'' || quote == '"') || line[len - 1] != quote {
            return Err(AliasError::ParseError(String::from_str(maybe_alias)));
        }
        let name_text = maybe_alias.substring_char(0, eq);
        let command_text = maybe_alias.substring_char(eq + 2, len - 1);
        match Name::new(name_text) {
            Err(error) => Err(error),
            Ok(name) => match Command::new(command_text) {
                Err(error) => Err(error),
                Ok(command) => Ok(Alias { name, command }),
            },
        }
    }

    /// Reads the definition line `maybe_alias`: `name='command'` or
    /// `name="command"`.
    pub fn from(maybe_alias: &str) -> (parsed: Result<Alias, AliasError>)
        ensures
            parsed_view(parsed) == parse_definition(
                maybe_alias@,
                regex_verdict(definition_pattern(), maybe_alias@) == Some(true),
            ),
    {
        let shaped = Alias::is_valid(maybe_alias);
        Alias::from_shaped(maybe_alias, shaped)
    }

    /// The alias as a definition line, the command between single quotes.
    pub fn to_string(&self) -> (line: String)
        ensures
            line@ == render(self@),
    {
        proof {
            reveal_strlit("='");
            reveal_strlit("'");
            assert("='"@ =~= seq!['=', '\'']);
            assert("'"@ =~= seq!['\'']);
        }
        let mut line = self.name.get().clone();
        line.append("='");
        line.append(self.command.get().as_str());
        line.append("'");
        line
    }
}

/// The definition lines of `aliases`, in their order.
pub open spec fn rendered(aliases: Seq<AliasView>) -> Seq<Seq<char>> {
    aliases.map_values(|alias: AliasView| render(alias))
}

/// The aliases as definition lines on one line, in their order, with one
/// blank between neighbours.
pub fn render_all(aliases: &Vec<Alias>) -> (line: String)
    ensures
        line@ == join(rendered(alias_views(aliases@))),
{
    let ghost lines = rendered(alias_views(aliases@));
    let mut line = String::new();
    let mut at: usize = 0;
    assert(lines.take(0) =~= Seq::<Seq<char>>::empty());
    while at < aliases.len()
        invariant
            lines == rendered(alias_views(aliases@)),
            at <= aliases@.len(),
            line@ == join(lines.take(at as int)),
        decreases aliases@.len() - at,
    {
        let next = aliases[at].to_string();
        proof {
            assert(next@ == lines[at as int]);
            lemma_join_push(lines.take(at as int), lines[at as int]);
            assert(lines.take(at as int).push(lines[at as int]) =~= lines.take(at + 1));
            reveal_strlit(" ");
            assert(" "@ =~= seq![' ']);
        }
        if at > 0 {
            line.append(" ");
        }
        line.append(next.as_str());
        at += 1;
    }
    assert(lines.take(aliases@.len() as int) =~= lines);
    line
}

/// A rendered alias in which the shape of a definition is found reads back
/// as that alias, whatever its command holds.
pub proof fn lemma_render_reads_back(alias: AliasView)
    requires
        is_identifier(alias.name),
    ensures
        parse_definition(render(alias), true) == Ok::<AliasView, AliasErrorView>(alias),
{
    let line = render(alias);
    let n = alias.name.len() as int;
    lemma_equals_sign_after_name(line, n, 0);
    assert(name_part(line) =~= alias.name);
    assert(command_part(line) =~= alias.command);
}

/// Where no `=` stands before position `n` of `line` and one stands at it,
/// the first `=` at or after an earlier position is the one at `n`.
proof fn lemma_equals_sign_after_name(line: Seq<char>, n: int, from: int)
    requires
        0 <= from <= n < line.len(),
        line[n] == '=',
        forall|i: int| 0 <= i < n ==> is_name_char(#[trigger] line[i]),
    ensures
        equals_sign(line, from) == n,
    decreases n - from,
{
    if from < n {
        assert(is_name_char(line[from]));
        lemma_equals_sign_after_name(line, n, from + 1);
    }
}

} // verus!
