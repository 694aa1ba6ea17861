//! The robots.txt policy: parsing a robots.txt body into rules for each user
//! agent, and deciding whether a user agent may fetch a path.

use vstd::prelude::*;
use vstd::string::StringExecFns;
use vstd::utf8::decode_utf8;
use vstd::utf8::valid_utf8;
use crate::data::PageUrl;
use crate::data::url_parse;
use crate::error::CeridwenError;
use crate::strings::ascii_lower;
use crate::strings::from_utf8;
use crate::strings::push_char;
use crate::strings::starts_with;
use crate::strings::str_eq;
use crate::strings::string_from;
use crate::strings::to_chars;
use crate::strings::trim;
use crate::strings::trimmed;
use crate::web_client::USER_AGENT;

verus! {

/// A rule of a robots.txt file, as a value of specifications.
pub enum Rule {
    /// Paths with this prefix may be fetched.
    Allow(Seq<char>),
    /// Paths with this prefix may not be fetched.
    Deny(Seq<char>),
}

/// A rule of a robots.txt file.
#[derive(Debug, Clone, PartialEq)]
pub enum RobotRule {
    /// Paths with this prefix may be fetched.
    Allow(String),
    /// Paths with this prefix may not be fetched.
    Deny(String),
}

impl DeepView for RobotRule {
    type V = Rule;

    open spec fn deep_view(&self) -> Rule {
        match self {
            RobotRule::Allow(prefix) => Rule::Allow(prefix@),
            RobotRule::Deny(prefix) => Rule::Deny(prefix@),
        }
    }
}

/// What a line of a robots.txt file says.
pub enum Directive {
    /// `User-agent: name`
    UserAgent(Seq<char>),
    /// `Disallow: prefix`
    Disallow(Seq<char>),
    /// `Allow: prefix`
    Allow(Seq<char>),
    /// A blank line, a comment, or anything else.
    Ignored,
}

/// The key of the line that names a user agent.
pub open spec fn user_agent_key() -> Seq<char> {
    seq!['u', 's', 'e', 'r', '-', 'a', 'g', 'e', 'n', 't', ':', ' ']
}

/// The key of the line that forbids a prefix.
pub open spec fn disallow_key() -> Seq<char> {
    seq!['d', 'i', 's', 'a', 'l', 'l', 'o', 'w', ':', ' ']
}

/// The key of the line that permits a prefix.
pub open spec fn allow_key() -> Seq<char> {
    seq!['a', 'l', 'l', 'o', 'w', ':', ' ']
}

/// Whether `line` begins with `key`, whatever the case of its letters, and
/// goes on after it.
pub open spec fn has_key(line: Seq<char>, key: Seq<char>) -> bool {
    &&& line.len() > key.len()
    &&& forall|i: int| 0 <= i < key.len() ==> ascii_lower(#[trigger] line[i]) == key[i]
}

/// What a line says, once the white space around it is removed.
pub open spec fn directive_of(line: Seq<char>) -> Directive {
    let t = trimmed(line);
    if t.len() == 0 || t.first() == '#' {
        Directive::Ignored
    } else if has_key(t, user_agent_key()) {
        Directive::UserAgent(t.skip(user_agent_key().len() as int))
    } else if has_key(t, disallow_key()) {
        Directive::Disallow(t.skip(disallow_key().len() as int))
    } else if has_key(t, allow_key()) {
        Directive::Allow(t.skip(allow_key().len() as int))
    } else {
        Directive::Ignored
    }
}

/// A line without the carriage return that may end it.
pub open spec fn without_carriage_return(line: Seq<char>) -> Seq<char> {
    if line.len() > 0 && line.last() == '\r' {
        line.drop_last()
    } else {
        line
    }
}

/// The lines of `rest`, where `current` holds the characters of a line that
/// has begun before `rest`.
pub open spec fn lines_from(current: Seq<char>, rest: Seq<char>) -> Seq<Seq<char>>
    decreases rest.len(),
{
    if rest.len() == 0 {
        if current.len() == 0 {
            Seq::empty()
        } else {
            seq![current]
        }
    } else if rest.first() == '\n' {
        seq![without_carriage_return(current)] + lines_from(Seq::empty(), rest.drop_first())
    } else {
        lines_from(current.push(rest.first()), rest.drop_first())
    }
}

/// The lines of a text. A line ends with a line feed, or with a carriage
/// return and a line feed, which are not part of it; what follows the last
/// line feed is a line if it is not empty.
pub open spec fn lines_of(text: Seq<char>) -> Seq<Seq<char>> {
    lines_from(Seq::empty(), text)
}

/// The rules that `entries` holds for a user agent: none where it has no entry.
pub open spec fn rules_of(entries: Map<Seq<char>, Seq<Rule>>, agent: Seq<char>) -> Seq<Rule> {
    if entries.contains_key(agent) {
        entries[agent]
    } else {
        Seq::empty()
    }
}

/// The entries after `rules` were added for each of `agents`, in their order.
pub open spec fn flushed(
    entries: Map<Seq<char>, Seq<Rule>>,
    agents: Seq<Seq<char>>,
    rules: Seq<Rule>,
) -> Map<Seq<char>, Seq<Rule>>
    decreases agents.len(),
{
    if agents.len() == 0 {
        entries
    } else {
        let before = flushed(entries, agents.drop_last(), rules);
        before.insert(agents.last(), rules_of(before, agents.last()) + rules)
    }
}

/// The state of the parser between two lines.
pub struct Groups {
    /// The user agents of the group that is being read.
    pub agents: Seq<Seq<char>>,
    /// The rules of the group that is being read.
    pub rules: Seq<Rule>,
    /// Whether the last directive was a rule.
    pub in_rules: bool,
    /// The rules of the groups that are complete, in the order of the file.
    pub entries: Map<Seq<char>, Seq<Rule>>,
}

/// The parser before the first line.
pub open spec fn groups_start() -> Groups {
    Groups { agents: Seq::empty(), rules: Seq::empty(), in_rules: false, entries: Map::empty() }
}

/// One directive's effect on the parser. A user agent that follows rules
/// closes the group before it: its rules go to each of its user agents.
pub open spec fn group_step(g: Groups, d: Directive) -> Groups {
    match d {
        Directive::UserAgent(name) => if g.in_rules {
            Groups {
                agents: seq![name],
                rules: Seq::empty(),
                in_rules: false,
                entries: flushed(g.entries, g.agents, g.rules),
            }
        } else {
            Groups { agents: g.agents.push(name), ..g }
        },
        Directive::Disallow(prefix) => Groups {
            rules: g.rules.push(Rule::Deny(prefix)),
            in_rules: true,
            ..g
        },
        Directive::Allow(prefix) => Groups {
            rules: g.rules.push(Rule::Allow(prefix)),
            in_rules: true,
            ..g
        },
        Directive::Ignored => g,
    }
}

/// The parser after the given lines, where it was in state `g` before them.
pub open spec fn groups_from(g: Groups, lines: Seq<Seq<char>>) -> Groups
    decreases lines.len(),
{
    if lines.len() == 0 {
        g
    } else {
        groups_from(group_step(g, directive_of(lines.first())), lines.drop_first())
    }
}

/// The rules that a robots.txt text gives to each user agent that it names,
/// the rule that was declared last first. The group that the text ends in is
/// closed like the others.
pub open spec fn robots_of(text: Seq<char>) -> Map<Seq<char>, Seq<Rule>> {
    let g = groups_from(groups_start(), lines_of(text));
    flushed(g.entries, g.agents, g.rules).map_values(|rules: Seq<Rule>| rules.reverse())
}

/// The rules that apply to a user agent: its own where the file names it,
/// else those of `*`, else none.
pub open spec fn rules_for(entries: Map<Seq<char>, Seq<Rule>>, agent: Seq<char>) -> Seq<Rule> {
    if entries.contains_key(agent) {
        entries[agent]
    } else {
        rules_of(entries, seq!['*'])
    }
}

/// The prefix that a rule speaks of.
pub open spec fn prefix_of(rule: Rule) -> Seq<char> {
    match rule {
        Rule::Allow(prefix) => prefix,
        Rule::Deny(prefix) => prefix,
    }
}

/// The first of the rules whose prefix the path begins with.
pub open spec fn first_match(rules: Seq<Rule>, path: Seq<char>) -> Option<Rule>
    decreases rules.len(),
{
    if rules.len() == 0 {
        None
    } else if prefix_of(rules.first()).is_prefix_of(path) {
        Some(rules.first())
    } else {
        first_match(rules.drop_first(), path)
    }
}

/// Whether a user agent may fetch a path: no rule matches, or the first that
/// does permits it.
pub open spec fn permits(
    entries: Map<Seq<char>, Seq<Rule>>,
    agent: Seq<char>,
    path: Seq<char>,
) -> bool {
    !(first_match(rules_for(entries, agent), path) is Some && first_match(
        rules_for(entries, agent),
        path,
    )->0 is Deny)
}

/// The map that a list of entries stands for: each name with its rules.
pub open spec fn entries_map(list: Seq<(Seq<char>, Seq<Rule>)>) -> Map<Seq<char>, Seq<Rule>>
    decreases list.len(),
{
    if list.len() == 0 {
        Map::empty()
    } else {
        entries_map(list.drop_last()).insert(list.last().0, list.last().1)
    }
}

/// Whether no name occurs twice in a list of entries.
pub open spec fn distinct_names(list: Seq<(Seq<char>, Seq<Rule>)>) -> bool {
    forall|i: int, j: int|
        0 <= i < j < list.len() ==> (#[trigger] list[i]).0 != (#[trigger] list[j]).0
}

/// Whether a list of entries has one for `name`.
pub open spec fn names(list: Seq<(Seq<char>, Seq<Rule>)>, name: Seq<char>) -> bool {
    exists|i: int| 0 <= i < list.len() && (#[trigger] list[i]).0 == name
}

/// An entry is found in the map under its name, with its rules.
pub proof fn entries_map_holds(list: Seq<(Seq<char>, Seq<Rule>)>, j: int)
    requires
        distinct_names(list),
        0 <= j < list.len(),
    ensures
        entries_map(list).contains_key(list[j].0),
        entries_map(list)[list[j].0] == list[j].1,
    decreases list.len(),
{
    if j < list.len() - 1 {
        let shorter = list.drop_last();
        assert(shorter[j] == list[j]);
        assert forall|a: int, b: int| 0 <= a < b < shorter.len() implies (#[trigger] shorter[a]).0
            != (#[trigger] shorter[b]).0 by {
            assert(shorter[a] == list[a] && shorter[b] == list[b]);
        }
        entries_map_holds(shorter, j);
        assert(list[j].0 != list[list.len() - 1].0);
    }
}

/// The map has a key only where the list has an entry of that name.
pub proof fn entries_map_names(list: Seq<(Seq<char>, Seq<Rule>)>, name: Seq<char>)
    ensures
        entries_map(list).contains_key(name) <==> names(list, name),
    decreases list.len(),
{
    if list.len() > 0 {
        let shorter = list.drop_last();
        entries_map_names(shorter, name);
        if names(shorter, name) {
            let i = choose|i: int| 0 <= i < shorter.len() && (#[trigger] shorter[i]).0 == name;
            assert(list[i].0 == name);
        }
        if names(list, name) {
            let i = choose|i: int| 0 <= i < list.len() && (#[trigger] list[i]).0 == name;
            if i < shorter.len() {
                assert(shorter[i].0 == name);
            }
        } else {
            assert(list[list.len() - 1].0 != name);
        }
    }
}

/// New rules for the name of an entry replace the rules in the map.
pub proof fn entries_map_update(list: Seq<(Seq<char>, Seq<Rule>)>, j: int, rules: Seq<Rule>)
    requires
        distinct_names(list),
        0 <= j < list.len(),
    ensures
        distinct_names(list.update(j, (list[j].0, rules))),
        entries_map(list.update(j, (list[j].0, rules))) == entries_map(list).insert(
            list[j].0,
            rules,
        ),
    decreases list.len(),
{
    let after = list.update(j, (list[j].0, rules));
    assert forall|a: int, b: int| 0 <= a < b < after.len() implies (#[trigger] after[a]).0 != (
    #[trigger] after[b]).0 by {
        assert(after[a].0 == list[a].0 && after[b].0 == list[b].0);
    }
    let shorter = list.drop_last();
    if j < list.len() - 1 {
        assert forall|a: int, b: int| 0 <= a < b < shorter.len() implies (#[trigger] shorter[a]).0
            != (#[trigger] shorter[b]).0 by {
            assert(shorter[a] == list[a] && shorter[b] == list[b]);
        }
        assert(shorter[j] == list[j]);
        entries_map_update(shorter, j, rules);
        assert(after.drop_last() == shorter.update(j, (list[j].0, rules)));
        assert(after.last() == list.last());
        assert(list[j].0 != list[list.len() - 1].0);
        assert(entries_map(after) == entries_map(list).insert(list[j].0, rules));
    } else {
        assert(after.drop_last() == shorter);
        assert(entries_map(after) == entries_map(list).insert(list[j].0, rules));
    }
}

/// An entry with a new name at the end of the list is one more key of the map.
pub proof fn entries_map_push(list: Seq<(Seq<char>, Seq<Rule>)>, name: Seq<char>, rules: Seq<Rule>)
    requires
        distinct_names(list),
        !names(list, name),
    ensures
        distinct_names(list.push((name, rules))),
        entries_map(list.push((name, rules))) == entries_map(list).insert(name, rules),
{
    let after = list.push((name, rules));
    assert(after.drop_last() == list);
    assert forall|a: int, b: int| 0 <= a < b < after.len() implies (#[trigger] after[a]).0 != (
    #[trigger] after[b]).0 by {
        if b < list.len() {
            assert(after[a] == list[a] && after[b] == list[b]);
        } else {
            assert(after[a] == list[a]);
        }
    }
}

fn to_ascii_lower(c: char) -> (r: char)
    ensures
        r == ascii_lower(c),
{
    if 'A' <= c && c <= 'Z' {
        ((c as u8) + 32) as char
    } else {
        c
    }
}

fn line_has_key(line: &Vec<char>, key: &Vec<char>) -> (b: bool)
    ensures
        b == has_key(line@, key@),
{
    if line.len() <= key.len() {
        return false;
    }
    let mut i: usize = 0;
    while i < key.len()
        invariant
            i <= key.len() < line.len(),
            forall|k: int| 0 <= k < i ==> ascii_lower(#[trigger] line[k]) == key[k],
        decreases key.len() - i,
    {
        if to_ascii_lower(line[i]) != key[i] {
            return false;
        }
        i += 1;
    }
    true
}

/// A line of a robots.txt file, read.
enum Line {
    UserAgent(String),
    Disallow(String),
    Allow(String),
    Ignored,
}

impl DeepView for Line {
    type V = Directive;

    closed spec fn deep_view(&self) -> Directive {
        match self {
            Line::UserAgent(name) => Directive::UserAgent(name@),
            Line::Disallow(prefix) => Directive::Disallow(prefix@),
            Line::Allow(prefix) => Directive::Allow(prefix@),
            Line::Ignored => Directive::Ignored,
        }
    }
}

fn read_line(line: &str) -> (read: Line)
    ensures
        read.deep_view() == directive_of(line@),
{
    let t = to_chars(trim(line));
    if t.len() == 0 || t[0] == '#' {
        return Line::Ignored;
    }
    let user_agent = vec!['u', 's', 'e', 'r', '-', 'a', 'g', 'e', 'n', 't', ':', ' '];
    let disallow = vec!['d', 'i', 's', 'a', 'l', 'l', 'o', 'w', ':', ' '];
    let allow = vec!['a', 'l', 'l', 'o', 'w', ':', ' '];
    assert(user_agent@ == user_agent_key());
    assert(disallow@ == disallow_key());
    assert(allow@ == allow_key());
    if line_has_key(&t, &user_agent) {
        Line::UserAgent(string_from(&t, user_agent.len()))
    } else if line_has_key(&t, &disallow) {
        Line::Disallow(string_from(&t, disallow.len()))
    } else if line_has_key(&t, &allow) {
        Line::Allow(string_from(&t, allow.len()))
    } else {
        Line::Ignored
    }
}

fn clone_rule(rule: &RobotRule) -> (copy: RobotRule)
    ensures
        copy.deep_view() == rule.deep_view(),
{
    match rule {
        RobotRule::Allow(prefix) => RobotRule::Allow(prefix.clone()),
        RobotRule::Deny(prefix) => RobotRule::Deny(prefix.clone()),
    }
}

/// The rules of `first` followed by those of `second`.
fn joined_rules(first: &Vec<RobotRule>, second: &Vec<RobotRule>) -> (all: Vec<RobotRule>)
    ensures
        all.deep_view() == first.deep_view() + second.deep_view(),
{
    let mut all: Vec<RobotRule> = Vec::new();
    let mut i: usize = 0;
    while i < first.len()
        invariant
            i <= first.len(),
            all.deep_view() == first.deep_view().take(i as int),
        decreases first.len() - i,
    {
        let ghost before = all.deep_view();
        all.push(clone_rule(&first[i]));
        assert(all.deep_view() == before.push(first[i as int].deep_view()));
        i += 1;
    }
    let mut k: usize = 0;
    while k < second.len()
        invariant
            k <= second.len(),
            all.deep_view() == first.deep_view() + second.deep_view().take(k as int),
        decreases second.len() - k,
    {
        let ghost before = all.deep_view();
        all.push(clone_rule(&second[k]));
        assert(all.deep_view() == before.push(second[k as int].deep_view()));
        k += 1;
    }
    assert(second.deep_view().take(second.len() as int) == second.deep_view());
    all
}

/// The rules in the opposite order.
fn reversed_rules(rules: &Vec<RobotRule>) -> (back: Vec<RobotRule>)
    ensures
        back.deep_view() == rules.deep_view().reverse(),
{
    let mut back: Vec<RobotRule> = Vec::new();
    let mut i: usize = rules.len();
    while i > 0
        invariant
            i <= rules.len(),
            back.len() == rules.len() - i,
            forall|k: int|
                0 <= k < back.len() ==> (#[trigger] back.deep_view()[k])
                    == rules.deep_view()[rules.len() - 1 - k],
        decreases i,
    {
        i -= 1;
        let ghost before = back.deep_view();
        back.push(clone_rule(&rules[i]));
        assert(back.deep_view() == before.push(rules[i as int].deep_view()));
    }
    back
}

fn entry_position(entries: &Vec<(String, Vec<RobotRule>)>, name: &str) -> (found: Option<usize>)
    ensures
        match found {
            Some(j) => j < entries.len() && entries.deep_view()[j as int].0 == name@,
            None => !names(entries.deep_view(), name@),
        },
{
    let mut j: usize = 0;
    while j < entries.len()
        invariant
            j <= entries.len(),
            forall|i: int| 0 <= i < j ==> (#[trigger] entries.deep_view()[i]).0 != name@,
        decreases entries.len() - j,
    {
        if str_eq(entries[j].0.as_str(), name) {
            return Some(j);
        }
        j += 1;
    }
    None
}

/// Adds `rules` to the entry of each of `agents`, making the entry where
/// there is none.
fn flush(
    entries: &mut Vec<(String, Vec<RobotRule>)>,
    agents: &Vec<String>,
    rules: &Vec<RobotRule>,
)
    requires
        distinct_names(old(entries).deep_view()),
    ensures
        distinct_names(final(entries).deep_view()),
        entries_map(final(entries).deep_view()) == flushed(
            entries_map(old(entries).deep_view()),
            agents.deep_view(),
            rules.deep_view(),
        ),
{
    let ghost start = entries_map(entries.deep_view());
    let mut k: usize = 0;
    while k < agents.len()
        invariant
            k <= agents.len(),
            distinct_names(entries.deep_view()),
            entries_map(entries.deep_view()) == flushed(
                start,
                agents.deep_view().take(k as int),
                rules.deep_view(),
            ),
        decreases agents.len() - k,
    {
        let ghost list = entries.deep_view();
        let ghost agent = agents[k as int]@;
        proof {
            assert(agents.deep_view().take(k + 1).drop_last() == agents.deep_view().take(k as int));
            assert(agents.deep_view().take(k + 1).last() == agent);
            entries_map_names(list, agent);
        }
        match entry_position(entries, agents[k].as_str()) {
            Some(j) => {
                let merged = joined_rules(&entries[j].1, rules);
                proof {
                    entries_map_holds(list, j as int);
                    entries_map_update(list, j as int, merged.deep_view());
                }
                entries[j].1 = merged;
                assert(entries.deep_view() == list.update(
                    j as int,
                    (list[j as int].0, merged.deep_view()),
                ));
            },
            None => {
                let none: Vec<RobotRule> = Vec::new();
                let fresh = joined_rules(&none, rules);
                proof {
                    assert(none.deep_view() == Seq::<Rule>::empty());
                    entries_map_push(list, agent, fresh.deep_view());
                }
                entries.push((agents[k].clone(), fresh));
                assert(entries.deep_view() == list.push((agent, fresh.deep_view())));
            },
        }
        k += 1;
    }
    assert(agents.deep_view().take(agents.len() as int) == agents.deep_view());
}

/// The rules of a robots.txt file: for each user agent that the file names,
/// its rules, the last declared first.
#[derive(Debug)]
pub struct Robots {
    entries: Vec<(String, Vec<RobotRule>)>,
}

impl View for Robots {
    type V = Map<Seq<char>, Seq<Rule>>;

    closed spec fn view(&self) -> Map<Seq<char>, Seq<Rule>> {
        entries_map(self.entries.deep_view())
    }
}

/// The parser between two lines: the groups that are complete and the one
/// that is being read.
struct Parser {
    entries: Vec<(String, Vec<RobotRule>)>,
    agents: Vec<String>,
    rules: Vec<RobotRule>,
    in_rules: bool,
}

impl Parser {
    spec fn groups(&self) -> Groups {
        Groups {
            agents: self.agents.deep_view(),
            rules: self.rules.deep_view(),
            in_rules: self.in_rules,
            entries: entries_map(self.entries.deep_view()),
        }
    }

    spec fn wf(&self) -> bool {
        distinct_names(self.entries.deep_view())
    }

    fn new() -> (parser: Parser)
        ensures
            parser.wf(),
            parser.groups() == groups_start(),
    {
        let parser = Parser {
            entries: Vec::new(),
            agents: Vec::new(),
            rules: Vec::new(),
            in_rules: false,
        };
        assert(parser.entries.deep_view() == Seq::<(Seq<char>, Seq<Rule>)>::empty());
        assert(parser.agents.deep_view() == Seq::<Seq<char>>::empty());
        assert(parser.rules.deep_view() == Seq::<Rule>::empty());
        parser
    }

    fn read(&mut self, line: &str)
        requires
            old(self).wf(),
        ensures
            final(self).wf(),
            final(self).groups() == group_step(old(self).groups(), directive_of(line@)),
    {
        let ghost before = self.groups();
        match read_line(line) {
            Line::UserAgent(name) => {
                if self.in_rules {
                    flush(&mut self.entries, &self.agents, &self.rules);
                    self.agents = Vec::new();
                    self.rules = Vec::new();
                    self.in_rules = false;
                    assert(self.rules.deep_view() == Seq::<Rule>::empty());
                    self.agents.push(name);
                    assert(self.agents.deep_view() == seq![name@]);
                } else {
                    self.agents.push(name);
                    assert(self.agents.deep_view() == before.agents.push(name@));
                }
            },
            Line::Disallow(prefix) => {
                self.in_rules = true;
                self.rules.push(RobotRule::Deny(prefix));
                assert(self.rules.deep_view() == before.rules.push(Rule::Deny(prefix@)));
            },
            Line::Allow(prefix) => {
                self.in_rules = true;
                self.rules.push(RobotRule::Allow(prefix));
                assert(self.rules.deep_view() == before.rules.push(Rule::Allow(prefix@)));
            },
            Line::Ignored => {},
        }
    }
}

/// Reversing the rules of each entry of a list reverses them in its map.
pub proof fn entries_map_reversed(
    list: Seq<(Seq<char>, Seq<Rule>)>,
    turned: Seq<(Seq<char>, Seq<Rule>)>,
)
    requires
        turned.len() == list.len(),
        forall|i: int|
            0 <= i < list.len() ==> (#[trigger] turned[i]) == (list[i].0, list[i].1.reverse()),
    ensures
        entries_map(turned) == entries_map(list).map_values(|rules: Seq<Rule>| rules.reverse()),
        distinct_names(list) ==> distinct_names(turned),
    decreases list.len(),
{
    let turn = |rules: Seq<Rule>| rules.reverse();
    if list.len() > 0 {
        entries_map_reversed(list.drop_last(), turned.drop_last());
        assert(turned.last() == (list.last().0, list.last().1.reverse()));
        assert(entries_map(turned) == entries_map(list).map_values(turn));
    } else {
        assert(entries_map(turned) == entries_map(list).map_values(turn));
    }
    if distinct_names(list) {
        assert forall|a: int, b: int| 0 <= a < b < turned.len() implies (#[trigger] turned[a]).0
            != (#[trigger] turned[b]).0 by {
            assert(turned[a].0 == list[a].0 && turned[b].0 == list[b].0);
        }
    }
}

impl Robots {
    #[verifier::type_invariant]
    spec fn distinct(&self) -> bool {
        distinct_names(self.entries.deep_view())
    }

    /// Parses the text of a robots.txt file. Nothing is refused: a line that
    /// is no directive is passed over.
    pub fn parse_text(text: &str) -> (robots: Robots)
        ensures
            robots@ == robots_of(text@),
    {
        broadcast use vstd::string::group_string_axioms;

        let mut parser = Parser::new();
        let mut current = String::new();
        // A carriage return that was read and may yet end the line.
        let mut held = false;
        assert(text@.skip(0) == text@);
        for c in it: text.chars()
            invariant
                it.seq() == text@,
                parser.wf(),
                !held ==> current@.len() == 0 || current@.last() != '\r',
                groups_from(groups_start(), lines_of(text@)) == groups_from(
                    parser.groups(),
                    lines_from(
                        if held {
                            current@.push('\r')
                        } else {
                            current@
                        },
                        text@.skip(it.index() as int),
                    ),
                ),
        {
            let ghost rest = text@.skip(it.index() as int);
            let ghost line = if held {
                current@.push('\r')
            } else {
                current@
            };
            let ghost after = lines_from(Seq::empty(), rest.drop_first());
            proof {
                assert(rest.first() == c);
                assert(rest.drop_first() == text@.skip(it.index() + 1));
            }
            if c == '\n' {
                proof {
                    let lines = seq![without_carriage_return(line)] + after;
                    assert(lines_from(line, rest) == lines);
                    assert(lines.first() == without_carriage_return(line));
                    assert(lines.drop_first() == after);
                    if held {
                        assert(line.drop_last() == current@);
                    }
                }
                parser.read(current.as_str());
                current = String::new();
                held = false;
                assert(current@ == Seq::<char>::empty());
            } else {
                assert(lines_from(line, rest) == lines_from(line.push(c), rest.drop_first()));
                if held {
                    push_char(&mut current, '\r');
                    held = false;
                }
                if c == '\r' {
                    held = true;
                } else {
                    push_char(&mut current, c);
                }
            }
        }
        let ghost finished = groups_from(groups_start(), lines_of(text@));
        let ghost before_end = parser.groups();
        assert(text@.skip(text@.len() as int).len() == 0);
        if held {
            push_char(&mut current, '\r');
        }
        assert(finished == groups_from(
            before_end,
            lines_from(current@, text@.skip(text@.len() as int)),
        ));
        if !current.as_str().is_empty() {
            proof {
                let lines = seq![current@];
                assert(lines_from(current@, text@.skip(text@.len() as int)) == lines);
                assert(lines.first() == current@);
                assert(lines.drop_first().len() == 0);
                assert(groups_from(before_end, lines) == groups_from(
                    group_step(before_end, directive_of(current@)),
                    lines.drop_first(),
                ));
            }
            parser.read(current.as_str());
        } else {
            assert(lines_from(current@, text@.skip(text@.len() as int)).len() == 0);
        }
        assert(parser.groups() == finished);
        flush(&mut parser.entries, &parser.agents, &parser.rules);
        assert(entries_map(parser.entries.deep_view()) == flushed(
            finished.entries,
            finished.agents,
            finished.rules,
        ));
        let mut turned: Vec<(String, Vec<RobotRule>)> = Vec::new();
        let mut i: usize = 0;
        while i < parser.entries.len()
            invariant
                i <= parser.entries.len(),
                turned.len() == i,
                forall|k: int|
                    0 <= k < i ==> (#[trigger] turned.deep_view()[k]) == (
                        parser.entries.deep_view()[k].0,
                        parser.entries.deep_view()[k].1.reverse(),
                    ),
            decreases parser.entries.len() - i,
        {
            let ghost before = turned.deep_view();
            let back = reversed_rules(&parser.entries[i].1);
            turned.push((parser.entries[i].0.clone(), back));
            assert(turned.deep_view() == before.push(
                (parser.entries.deep_view()[i as int].0, back.deep_view()),
            ));
            i += 1;
        }
        proof {
            entries_map_reversed(parser.entries.deep_view(), turned.deep_view());
        }
        Robots { entries: turned }
    }

    /// Parses the body of a robots.txt file, which has to be UTF-8.
    pub fn parse_file(body: &[u8]) -> (r: Result<Robots, CeridwenError>)
        ensures
            match r {
                Ok(robots) => valid_utf8(body@) && robots@ == robots_of(decode_utf8(body@)),
                Err(e) => !valid_utf8(body@) && e is IOError,
            },
    {
        match from_utf8(body) {
            Some(text) => Ok(Robots::parse_text(text)),
            None => Err(CeridwenError::IOError("stream did not contain valid UTF-8".to_string())),
        }
    }
}

fn copied_rules(rules: &Vec<RobotRule>) -> (copy: Vec<RobotRule>)
    ensures
        copy.deep_view() == rules.deep_view(),
{
    let none: Vec<RobotRule> = Vec::new();
    assert(none.deep_view() == Seq::<Rule>::empty());
    let copy = joined_rules(&none, rules);
    assert(Seq::<Rule>::empty() + rules.deep_view() == rules.deep_view());
    copy
}

impl Robots {
    /// The rules that apply to the user agent `name`: its own where the file
    /// names it, else those of `*`, else none.
    pub fn get_rules(&self, name: &str) -> (rules: Vec<RobotRule>)
        ensures
            rules.deep_view() == rules_for(self@, name@),
    {
        proof {
            use_type_invariant(self);
            entries_map_names(self.entries.deep_view(), name@);
            entries_map_names(self.entries.deep_view(), seq!['*']);
            reveal_strlit("*");
            assert("*"@ == seq!['*']);
        }
        match entry_position(&self.entries, name) {
            Some(j) => {
                proof {
                    entries_map_holds(self.entries.deep_view(), j as int);
                }
                copied_rules(&self.entries[j].1)
            },
            None => match entry_position(&self.entries, "*") {
                Some(j) => {
                    proof {
                        entries_map_holds(self.entries.deep_view(), j as int);
                    }
                    copied_rules(&self.entries[j].1)
                },
                None => {
                    let none: Vec<RobotRule> = Vec::new();
                    assert(none.deep_view() == Seq::<Rule>::empty());
                    none
                },
            },
        }
    }

    /// The rule that decides whether `user_agent` may fetch `url`: the first
    /// of the rules for the user agent whose prefix the path of the URL
    /// begins with. Where there is none, the URL may be fetched.
    pub fn check_url(&self, user_agent: &str, url: &PageUrl) -> (rule: Option<RobotRule>)
        ensures
            rule.deep_view() == first_match(rules_for(self@, user_agent@), url@.path),
    {
        let rules = self.get_rules(user_agent);
        let path = url.path();
        let mut i: usize = 0;
        assert(rules.deep_view().skip(0) == rules.deep_view());
        while i < rules.len()
            invariant
                i <= rules.len(),
                path@ == url@.path,
                rules.deep_view() == rules_for(self@, user_agent@),
                first_match(rules.deep_view(), path@) == first_match(
                    rules.deep_view().skip(i as int),
                    path@,
                ),
            decreases rules.len() - i,
        {
            let ghost rest = rules.deep_view().skip(i as int);
            proof {
                assert(rest.first() == rules[i as int].deep_view());
                assert(rest.drop_first() == rules.deep_view().skip(i + 1));
            }
            let matches = match &rules[i] {
                RobotRule::Allow(prefix) => starts_with(path, prefix.as_str()),
                RobotRule::Deny(prefix) => starts_with(path, prefix.as_str()),
            };
            if matches {
                let rule = clone_rule(&rules[i]);
                assert(Some(rule).deep_view() == Some(rest.first()));
                return Some(rule);
            }
            i += 1;
        }
        None
    }

    /// Whether `user_agent` may fetch `url`.
    pub fn allows(&self, user_agent: &str, url: &PageUrl) -> (allowed: bool)
        ensures
            allowed == permits(self@, user_agent@, url@.path),
    {
        match self.check_url(user_agent, url) {
            Some(RobotRule::Deny(_)) => false,
            Some(RobotRule::Allow(_)) => true,
            None => true,
        }
    }
}

/// An empty robots.txt permits everything: it has no rules for any user
/// agent, so every user agent may fetch every path.
pub proof fn empty_body_permits_all(agent: Seq<char>, path: Seq<char>)
    ensures
        robots_of(Seq::empty()) == Map::<Seq<char>, Seq<Rule>>::empty(),
        rules_for(robots_of(Seq::empty()), agent) == Seq::<Rule>::empty(),
        permits(robots_of(Seq::empty()), agent, path),
{
    let turn = |rules: Seq<Rule>| rules.reverse();
    assert(lines_of(Seq::empty()) == Seq::<Seq<char>>::empty());
    assert(Map::<Seq<char>, Seq<Rule>>::empty().map_values(turn) == Map::<
        Seq<char>,
        Seq<Rule>,
    >::empty());
}

/// The key of a directive is read without regard to case: two lines that
/// differ only in the case of the ASCII letters of their first `n`
/// characters say the same, where one of them is a directive whose key has
/// `n` characters.
pub proof fn directive_key_ignores_case(a: Seq<char>, b: Seq<char>, n: int)
    requires
        a.len() == b.len(),
        0 <= n <= a.len(),
        forall|i: int| 0 <= i < n ==> ascii_lower(#[trigger] a[i]) == ascii_lower(b[i]),
        forall|i: int| n <= i < a.len() ==> #[trigger] a[i] == b[i],
        trimmed(a) == a,
        trimmed(b) == b,
        match directive_of(a) {
            Directive::UserAgent(_) => n == user_agent_key().len(),
            Directive::Disallow(_) => n == disallow_key().len(),
            Directive::Allow(_) => n == allow_key().len(),
            Directive::Ignored => false,
        },
    ensures
        directive_of(b) == directive_of(a),
{
    assert(b.skip(n) == a.skip(n));
    assert(ascii_lower(a[0]) == ascii_lower(b[0]));
    assert forall|key: Seq<char>| key.len() <= n implies (has_key(a, key) <==> has_key(b, key)) by {
        if has_key(a, key) {
            assert forall|i: int| 0 <= i < key.len() implies ascii_lower(#[trigger] b[i])
                == key[i] by {
                assert(ascii_lower(a[i]) == key[i]);
            }
        }
        if has_key(b, key) {
            assert forall|i: int| 0 <= i < key.len() implies ascii_lower(#[trigger] a[i])
                == key[i] by {
                assert(ascii_lower(b[i]) == key[i]);
            }
        }
    }
    match directive_of(a) {
        Directive::UserAgent(_) => {},
        Directive::Disallow(_) => {
            assert(ascii_lower(a[0]) == 'd' && ascii_lower(b[0]) == 'd');
            assert(!has_key(b, user_agent_key()));
        },
        Directive::Allow(_) => {
            assert(ascii_lower(a[0]) == 'a' && ascii_lower(b[0]) == 'a');
            assert(!has_key(b, user_agent_key()));
            assert(!has_key(b, disallow_key()));
        },
        Directive::Ignored => {},
    }
}

/// The number of characters of the key of a directive.
pub open spec fn key_length(d: Directive) -> int {
    match d {
        Directive::UserAgent(_) => user_agent_key().len() as int,
        Directive::Disallow(_) => disallow_key().len() as int,
        Directive::Allow(_) => allow_key().len() as int,
        Directive::Ignored => 0,
    }
}

/// Whether `b` is `a` but for the case of the ASCII letters among the first
/// `n` characters.
pub open spec fn differs_in_case_of_start(a: Seq<char>, b: Seq<char>, n: int) -> bool {
    &&& a.len() == b.len()
    &&& 0 <= n <= a.len()
    &&& forall|i: int| 0 <= i < n ==> ascii_lower(#[trigger] a[i]) == ascii_lower(b[i])
    &&& forall|i: int| n <= i < a.len() ==> #[trigger] a[i] == b[i]
}

/// Whether two lines differ in the case of a key at most: they are equal, or
/// the first is a directive and, without the white space around them, they
/// differ only in the case of the letters of its key.
pub open spec fn differ_in_key_case_only(a: Seq<char>, b: Seq<char>) -> bool {
    a == b || (!(directive_of(a) is Ignored) && differs_in_case_of_start(
        trimmed(a),
        trimmed(b),
        key_length(directive_of(a)),
    ))
}

/// Two lines that differ in the case of a key at most say the same.
pub proof fn line_ignores_key_case(a: Seq<char>, b: Seq<char>)
    requires
        differ_in_key_case_only(a, b),
    ensures
        directive_of(b) == directive_of(a),
{
    if a != b {
        crate::strings::trimmed_is_trimmed(a);
        crate::strings::trimmed_is_trimmed(b);
        directive_key_ignores_case(trimmed(a), trimmed(b), key_length(directive_of(a)));
    }
}

/// Whether two texts have as many lines, of which each of the one differs
/// from the line of the other in the case of a key at most.
pub open spec fn lines_differ_in_key_case_only(a: Seq<Seq<char>>, b: Seq<Seq<char>>) -> bool {
    &&& a.len() == b.len()
    &&& forall|i: int| 0 <= i < a.len() ==> differ_in_key_case_only(#[trigger] a[i], b[i])
}

/// The parser is in the same state after lines that differ in the case of
/// keys at most.
pub proof fn groups_ignore_key_case(g: Groups, a: Seq<Seq<char>>, b: Seq<Seq<char>>)
    requires
        lines_differ_in_key_case_only(a, b),
    ensures
        groups_from(g, b) == groups_from(g, a),
    decreases a.len(),
{
    if a.len() > 0 {
        assert(differ_in_key_case_only(a[0], b[0]));
        line_ignores_key_case(a.first(), b.first());
        assert forall|i: int| 0 <= i < a.drop_first().len() implies differ_in_key_case_only(
            #[trigger] a.drop_first()[i],
            b.drop_first()[i],
        ) by {
            assert(differ_in_key_case_only(a[i + 1], b[i + 1]));
        }
        groups_ignore_key_case(
            group_step(g, directive_of(a.first())),
            a.drop_first(),
            b.drop_first(),
        );
    }
}

/// The keys of a robots.txt file are read without regard to case: two texts
/// whose lines differ in the case of keys at most give the same rules to
/// the same user agents.
pub proof fn rules_ignore_key_case(a: Seq<char>, b: Seq<char>)
    requires
        lines_differ_in_key_case_only(lines_of(a), lines_of(b)),
    ensures
        robots_of(b) == robots_of(a),
{
    groups_ignore_key_case(groups_start(), lines_of(a), lines_of(b));
}

/// The text of the URL of the robots.txt file of a host.
pub open spec fn robots_url_text(scheme: Seq<char>, host: Seq<char>) -> Seq<char> {
    scheme + "://"@ + host + "/robots.txt"@
}

/// The URL of the robots.txt file that speaks for a URL: `/robots.txt` on
/// its host, with its scheme. A URL without a host has none.
pub fn robots_url(url: &PageUrl) -> (r: Result<PageUrl, CeridwenError>)
    ensures
        match url@.host {
            None => r matches Err(CeridwenError::MissingHost(text)) && text@ == url@.text,
            Some(host) => match r {
                Ok(robots) => url_parse(robots_url_text(url@.scheme, host)) == Some(robots@),
                Err(e) => url_parse(robots_url_text(url@.scheme, host)) is None
                    && e is UrlParsing,
            },
        },
{
    match url.host_str() {
        Some(host) => {
            let mut text = url.scheme().to_string();
            text.append("://");
            text.append(host);
            text.append("/robots.txt");
            PageUrl::parse(text.as_str())
        },
        None => Err(CeridwenError::MissingHost(url.as_str().to_string())),
    }
}

/// Whether the crawler may fetch a URL, given what came of fetching the
/// robots.txt file at `robots_url`.
///
/// A robots.txt file that was not found permits everything. Any other error
/// of the fetch is handed on. A file that was fetched is parsed, and the
/// rules for the crawler's user agent decide.
pub fn check_robots(fetched: Result<Vec<u8>, CeridwenError>, robots_url: &PageUrl, url: &PageUrl) -> (r:
    Result<bool, CeridwenError>)
    ensures
        match fetched {
            Ok(body) => match r {
                Ok(allowed) => valid_utf8(body@) && allowed == permits(
                    robots_of(decode_utf8(body@)),
                    USER_AGENT@,
                    url@.path,
                ),
                Err(e) => !valid_utf8(body@) && e is IOError,
            },
            Err(CeridwenError::PageNotFound(missing)) => if missing@ == robots_url@.text {
                r == Ok::<bool, CeridwenError>(true)
            } else {
                r == fetched_error(fetched)
            },
            Err(_) => r == fetched_error(fetched),
        },
{
    match fetched {
        Ok(body) => match Robots::parse_file(body.as_slice()) {
            Ok(robots) => Ok(robots.allows(USER_AGENT, url)),
            Err(e) => Err(e),
        },
        Err(CeridwenError::PageNotFound(missing)) => {
            if str_eq(missing.as_str(), robots_url.as_str()) {
                Ok(true)
            } else {
                Err(CeridwenError::PageNotFound(missing))
            }
        },
        Err(e) => Err(e),
    }
}

/// The error of a fetch, handed on.
pub open spec fn fetched_error(fetched: Result<Vec<u8>, CeridwenError>) -> Result<
    bool,
    CeridwenError,
> {
    Err(fetched->Err_0)
}

} // verus!
